//! Agents: backends that answer prompts.

use vstd::prelude::*;

use crate::text;

verus! {

/// The tokens that an agent used.
#[derive(Debug, Clone, Copy, PartialEq, Eq, Structural)]
pub struct Usage {
    pub input_tokens: u64,
    pub output_tokens: u64,
}

/// The sum of two counts, or the largest `u64` where it is larger.
pub open spec fn sum_u64(a: u64, b: u64) -> u64 {
    if a + b <= u64::MAX {
        (a + b) as u64
    } else {
        u64::MAX
    }
}

/// The sum of two counts, or the largest `u64` where it is larger.
pub fn add_u64(a: u64, b: u64) -> (sum: u64)
    ensures
        sum == sum_u64(a, b),
{
    match a.checked_add(b) {
        Some(sum) => sum,
        None => u64::MAX,
    }
}

impl Usage {
    /// No tokens.
    pub open spec fn none() -> Usage {
        Usage { input_tokens: 0, output_tokens: 0 }
    }

    /// The tokens of both, counted no further than the largest `u64`.
    pub open spec fn plus(self, more: Usage) -> Usage {
        Usage {
            input_tokens: sum_u64(self.input_tokens, more.input_tokens),
            output_tokens: sum_u64(self.output_tokens, more.output_tokens),
        }
    }

    /// Adds the tokens of another use, counted no further than the largest
    /// `u64`.
    pub fn add(&mut self, more: &Usage)
        ensures
            *final(self) == old(self).plus(*more),
    {
        self.input_tokens = add_u64(self.input_tokens, more.input_tokens);
        self.output_tokens = add_u64(self.output_tokens, more.output_tokens);
    }
}

impl Default for Usage {
    /// No tokens.
    fn default() -> (usage: Self)
        ensures
            usage == Usage::none(),
    {
        Usage { input_tokens: 0, output_tokens: 0 }
    }
}

/// What an agent is asked.
#[derive(Debug, Clone)]
pub struct InvokeRequest {
    pub prompt: String,
    pub system_prompt: String,
    pub allowed_tools: Vec<String>,
    pub max_turns: u32,
    pub model: String,
    pub cwd: String,
}

/// What an `InvokeRequest` says.
pub struct RequestView {
    pub prompt: Seq<char>,
    pub system_prompt: Seq<char>,
    pub allowed_tools: Seq<Seq<char>>,
    pub max_turns: u32,
    pub model: Seq<char>,
    pub cwd: Seq<char>,
}

impl View for InvokeRequest {
    type V = RequestView;

    open spec fn view(&self) -> RequestView {
        RequestView {
            prompt: self.prompt@,
            system_prompt: self.system_prompt@,
            allowed_tools: text::views(self.allowed_tools@),
            max_turns: self.max_turns,
            model: self.model@,
            cwd: self.cwd@,
        }
    }
}

/// What an agent answered.
#[derive(Debug, Clone)]
pub struct InvokeResult {
    pub final_text: String,
    pub usage: Usage,
    pub wall_ms: u64,
}

/// Why an agent did not answer.
#[derive(Debug, Clone)]
pub struct AgentError {
    pub message: String,
}

/// A backend that answers prompts.
pub trait AgentBackend {
    /// Asks the agent.
    fn invoke(&self, req: &InvokeRequest) -> Result<InvokeResult, AgentError>;
}

/// The backend gave this reply to a request.
pub open spec fn answered<B: AgentBackend>(
    backend: &B,
    request: RequestView,
    reply: Result<InvokeResult, AgentError>,
) -> bool {
    exists|req: InvokeRequest| #[trigger]
        req@ == request && call_ensures(B::invoke, (backend, &req), reply)
}

/// Asks the agent.
pub fn ask<B: AgentBackend>(backend: &B, request: &InvokeRequest) -> (reply: Result<
    InvokeResult,
    AgentError,
>)
    ensures
        answered(backend, request@, reply),
{
    let reply = backend.invoke(request);
    proof {
        assert(call_ensures(B::invoke, (backend, request), reply));
    }
    reply
}

/// The content of the last fenced block of a text: what stands between the line
/// of the second-last fence and the last fence.
pub open spec fn fenced_block(s: Seq<char>) -> Option<Seq<char>> {
    let close = text::last_before(s, "```"@, s.len() as int);
    let head = s.take(close);
    let open = text::last_before(head, "```"@, close);
    if close < 0 || open < 0 {
        None
    } else {
        match text::split_first(s.subrange(open + 3, close), '\n') {
            Some((info, content)) => Some(content),
            None => None,
        }
    }
}

/// The content of the last fenced block of a text.
pub fn extract_last_fenced_block(s: &str) -> (block: Option<&str>)
    ensures
        match block {
            Some(b) => fenced_block(s@) == Some(b@),
            None => fenced_block(s@) is None,
        },
{
    let chars: Vec<char> = text::chars_of(s);
    let fence: Vec<char> = text::chars_of("```");
    proof {
        reveal_strlit("```");
        assert(s@.take(s@.len() as int) =~= s@);
    }
    match text::find_last(&chars, &fence, chars.len()) {
        Some(close) => match text::find_last(&chars, &fence, close) {
            Some(open) => {
                let inner: &str = s.substring_char(open + 3, close);
                match text::split_once(inner, '\n') {
                    Some((_, content)) => Some(content),
                    None => None,
                }
            },
            None => None,
        },
        None => None,
    }
}

/// The fenced block of a reply, if there is a reply and it has one.
pub open spec fn block_of(reply: Result<InvokeResult, AgentError>) -> Option<Seq<char>> {
    match reply {
        Ok(result) => fenced_block(result.final_text@),
        Err(_) => None,
    }
}

/// A reader makes this of a block. It makes nothing of no block.
pub open spec fn read_by<T, P: Fn(&str) -> Option<T>>(
    read: &P,
    block: Option<Seq<char>>,
    value: Option<T>,
) -> bool {
    match block {
        Some(b) => exists|s: &str| #[trigger] s@ == b && call_ensures(read, (s,), value),
        None => value is None,
    }
}

/// What a reader makes of the fenced block of a reply, if there is one.
pub fn read_reply<T, P: Fn(&str) -> Option<T>>(
    read: &P,
    reply: &Result<InvokeResult, AgentError>,
) -> (value: Option<T>)
    requires
        forall|block: &str| call_requires(read, (block,)),
    ensures
        read_by(read, block_of(*reply), value),
{
    match reply {
        Ok(result) => match extract_last_fenced_block(result.final_text.as_str()) {
            Some(block) => {
                let value: Option<T> = read(block);
                proof {
                    assert(call_ensures(read, (block,), value));
                }
                value
            },
            None => None,
        },
        Err(_) => None,
    }
}

/// Sums stop at the largest number and otherwise are sums.
pub proof fn sums_stop_at_the_largest_number(a: u64, b: u64)
    ensures
        a + b <= u64::MAX ==> sum_u64(a, b) == a + b,
        a + b > u64::MAX ==> sum_u64(a, b) == u64::MAX,
        sum_u64(a, b) == sum_u64(b, a),
{
}

/// Usages add up token by token.
pub proof fn usages_add_up(a: Usage, b: Usage)
    ensures
        a.input_tokens + b.input_tokens <= u64::MAX ==> a.plus(b).input_tokens == a.input_tokens
            + b.input_tokens,
        a.output_tokens + b.output_tokens <= u64::MAX ==> a.plus(b).output_tokens
            == a.output_tokens + b.output_tokens,
        a.plus(Usage::none()) == a,
{
}

/// A block is what stands between the last two fences of a text, behind the line
/// of the first of them.
pub proof fn the_last_fenced_block_is_taken(s: Seq<char>, open: int, feed: int, close: int)
    requires
        text::occurs_at(s, "```"@, open),
        text::occurs_at(s, "```"@, close),
        forall|i: int| close < i ==> !#[trigger] text::occurs_at(s, "```"@, i),
        forall|i: int| open < i && i + 3 <= close ==> !#[trigger] text::occurs_at(s, "```"@, i),
        open + 3 <= feed < close,
        s[feed] == '\n',
        forall|j: int| open + 3 <= j < feed ==> #[trigger] s[j] != '\n',
    ensures
        fenced_block(s) == Some(s.subrange(feed + 1, close)),
{
    reveal_strlit("```");
    let f = "```"@;
    text::lemma_last_before_is(s, f, s.len() as int, close);
    let head = s.take(close);
    assert(head.subrange(open, open + 3) =~= s.subrange(open, open + 3));
    assert forall|i: int| open < i < close implies !#[trigger] text::occurs_at(head, f, i) by {
        if text::occurs_at(head, f, i) {
            assert(head.subrange(i, i + 3) =~= s.subrange(i, i + 3));
            assert(text::occurs_at(s, f, i));
        }
    }
    text::lemma_last_before_is(head, f, close, open);
    let inner = s.subrange(open + 3, close);
    let n = feed - open - 3;
    assert forall|j: int| 0 <= j < n implies inner[j] != '\n' by {
        assert(s[open + 3 + j] != '\n');
    }
    text::lemma_first_at(inner, '\n', n);
    assert(inner.skip(n + 1) =~= s.subrange(feed + 1, close));
}

/// A text with fewer than two fences has no block.
pub proof fn one_fence_makes_no_block(s: Seq<char>, at: int)
    requires
        forall|i: int| i != at ==> !#[trigger] text::occurs_at(s, "```"@, i),
    ensures
        fenced_block(s) is None,
{
    reveal_strlit("```");
    let f = "```"@;
    let close = text::last_before(s, f, s.len() as int);
    if text::occurs_at(s, f, at) && at < s.len() {
        text::lemma_last_before_is(s, f, s.len() as int, at);
        let head = s.take(at);
        assert forall|i: int| 0 <= i < at implies !#[trigger] text::occurs_at(head, f, i) by {
            if text::occurs_at(head, f, i) {
                assert(head.subrange(i, i + 3) =~= s.subrange(i, i + 3));
                assert(text::occurs_at(s, f, i));
            }
        }
        text::lemma_last_before_none(head, f, at);
    } else {
        assert forall|i: int| 0 <= i < s.len() implies !#[trigger] text::occurs_at(s, f, i) by {}
        text::lemma_last_before_none(s, f, s.len() as int);
    }
}

} // verus!
