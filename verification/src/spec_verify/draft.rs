//! Drafts acceptance criteria for a diff.

use vstd::prelude::*;

use crate::agents;
use crate::agents::{AgentBackend, AgentError, InvokeRequest, InvokeResult, RequestView, Usage};
use crate::text;

verus! {

/// A drafted document, and what drafting it used.
#[derive(Debug)]
pub struct DraftedSpec {
    pub markdown: String,
    pub usage: Usage,
}

/// Why there is no draft.
#[derive(Debug, Clone)]
pub enum DraftError {
    /// The agent did not answer.
    Invoke(AgentError),
    /// The answer has no fenced block.
    NoFencedBlock,
}

impl DraftError {
    /// The error in words.
    pub open spec fn words(self) -> Seq<char> {
        match self {
            DraftError::Invoke(err) => err.message@,
            DraftError::NoFencedBlock => "agent response had no fenced block"@,
        }
    }

    /// The error in words.
    pub fn message(&self) -> (s: String)
        ensures
            s@ == self.words(),
    {
        match self {
            DraftError::Invoke(err) => err.message.clone(),
            DraftError::NoFencedBlock => "agent response had no fenced block".to_owned(),
        }
    }
}

/// What the prompt says before the diff.
pub const PROMPT_OPENING: &'static str = "You are drafting an acceptance-criteria spec for a code change, in the exact format below — this becomes the spec file under `.autoreview/`, later checked against the diff by an LLM judge, so each criterion must be a specific, independently-verifiable claim about what the diff actually does, not a vague restatement of \"the code should work\" or \"the code should be correct.\"\n\nFormat (match exactly — a `# ` title, a `## Intent` section with 1-2 sentences on why this change exists, and a `## Acceptance Criteria` section with 3-6 bullet points):\n\n# <short title>\n\n## Intent\n\n<1-2 sentences>\n\n## Acceptance Criteria\n\n- <specific, checkable claim>\n- <specific, checkable claim>\n\nThe diff:\n```diff\n";

/// What the prompt says behind the diff.
pub const PROMPT_CLOSING: &'static str = "\n```\n\nRespond with ONLY a fenced ```markdown block containing the spec, nothing else — no preamble, no explanation outside the block.";

/// Who the agent is asked to be.
pub const SYSTEM_PROMPT: &'static str = "You write clear, specific, verifiable acceptance criteria for code changes — never vague restatements of \"works correctly.\"";

/// The request for a diff.
pub open spec fn draft_request(model: Seq<char>, diff_text: Seq<char>, cwd: Seq<char>) -> RequestView {
    RequestView {
        prompt: PROMPT_OPENING@ + diff_text + PROMPT_CLOSING@,
        system_prompt: SYSTEM_PROMPT@,
        allowed_tools: Seq::empty(),
        max_turns: 1,
        model,
        cwd,
    }
}

/// What a reply drafts.
pub open spec fn drafted_by(
    reply: Result<InvokeResult, AgentError>,
    drafted: Result<DraftedSpec, DraftError>,
) -> bool {
    match reply {
        Ok(result) => match agents::fenced_block(result.final_text@) {
            Some(block) => drafted matches Ok(d) && d.markdown@ == text::trimmed(block) && d.usage
                == result.usage,
            None => drafted == Err::<DraftedSpec, DraftError>(DraftError::NoFencedBlock),
        },
        Err(err) => drafted == Err::<DraftedSpec, DraftError>(DraftError::Invoke(err)),
    }
}

/// What a reply drafts: the content of its fenced block.
pub fn draft_of_reply(reply: Result<InvokeResult, AgentError>) -> (drafted: Result<
    DraftedSpec,
    DraftError,
>)
    ensures
        drafted_by(reply, drafted),
{
    match reply {
        Ok(result) => match agents::extract_last_fenced_block(result.final_text.as_str()) {
            Some(block) => Ok(
                DraftedSpec { markdown: text::trim(block).to_owned(), usage: result.usage },
            ),
            None => Err(DraftError::NoFencedBlock),
        },
        Err(err) => Err(DraftError::Invoke(err)),
    }
}

/// Has acceptance criteria drafted for a diff.
pub fn draft_spec<B: AgentBackend>(backend: &B, model: &str, diff_text: &str, cwd: &str) -> (drafted:
    Result<DraftedSpec, DraftError>)
    ensures
        exists|reply: Result<InvokeResult, AgentError>| #[trigger]
            agents::answered(backend, draft_request(model@, diff_text@, cwd@), reply)
                && drafted_by(reply, drafted),
{
    let no_tools: Vec<String> = Vec::new();
    let request = InvokeRequest {
        prompt: text::concat3(PROMPT_OPENING, diff_text, PROMPT_CLOSING),
        system_prompt: SYSTEM_PROMPT.to_owned(),
        allowed_tools: no_tools,
        max_turns: 1,
        model: model.to_owned(),
        cwd: cwd.to_owned(),
    };
    proof {
        assert(text::views(request.allowed_tools@) =~= Seq::empty());
        assert(request@ == draft_request(model@, diff_text@, cwd@));
    }
    let reply: Result<InvokeResult, AgentError> = agents::ask(backend, &request);
    let ghost said = reply;
    proof {
        assert(agents::answered(backend, draft_request(model@, diff_text@, cwd@), said));
    }
    draft_of_reply(reply)
}

/// A draft is the trimmed content of the last fenced block of a reply, at the price
/// of the call.
pub proof fn drafts_are_the_last_fenced_block(
    reply: Result<InvokeResult, AgentError>,
    drafted: Result<DraftedSpec, DraftError>,
)
    requires
        drafted_by(reply, drafted),
    ensures
        drafted matches Ok(d) ==> (reply matches Ok(r) && d.usage == r.usage
            && agents::fenced_block(r.final_text@) is Some && d.markdown@ == text::trimmed(
            agents::fenced_block(r.final_text@)->0,
        )),
        drafted matches Err(DraftError::Invoke(e)) ==> reply == Err::<InvokeResult, AgentError>(e),
        drafted matches Err(DraftError::NoFencedBlock) ==> (reply matches Ok(r)
            && agents::fenced_block(r.final_text@) is None),
{
}

/// A draft is asked for in one turn, without tools, of the model and in the place
/// that were given, on the whole diff.
pub proof fn drafts_are_asked_for_in_one_turn(model: Seq<char>, diff: Seq<char>, cwd: Seq<char>)
    ensures
        draft_request(model, diff, cwd).max_turns == 1,
        draft_request(model, diff, cwd).allowed_tools.len() == 0,
        draft_request(model, diff, cwd).model == model,
        draft_request(model, diff, cwd).cwd == cwd,
        text::has(draft_request(model, diff, cwd).prompt, diff),
{
    let whole = draft_request(model, diff, cwd).prompt;
    let head = PROMPT_OPENING@;
    assert(text::occurs_at(whole, diff, head.len() as int)) by {
        assert(whole.subrange(head.len() as int, (head.len() + diff.len()) as int) =~= diff);
    }
}

} // verus!
