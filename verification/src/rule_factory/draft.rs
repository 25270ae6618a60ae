//! Drafts a deterministic rule for a candidate seed: an agent drafts it five
//! times, and the draft that at least three attempts agree on is kept.

use vstd::prelude::*;

use crate::agents;
use crate::agents::{AgentBackend, AgentError, InvokeRequest, InvokeResult, RequestView, Usage};
use crate::rule_factory::mine::{CandidateSeed, RepresentativeSnippet, SeedView, SnippetView};
use crate::text;

verus! {

/// How often a rule is drafted.
pub const ATTEMPTS: usize = 5;

/// How many attempts agree on a rule that is kept.
pub const MIN_AGREEMENT: usize = 3;

/// What an attempt begins with that judges a rule impossible.
pub const INEXPRESSIBLE_MARKER: &'static str = "INEXPRESSIBLE:";

pub const PROMPT_OPENING: &'static str = "You are drafting a deterministic ast-grep YAML rule to catch a class of code-review finding a human/AI review keeps flagging by hand. Category: ";

pub const PROMPT_QUESTION: &'static str = "\n\nDecide: can this class of issue be caught by a single-file, syntactic ast-grep pattern (tree-sitter based, no cross-file/type information)? If YES, respond with ONLY a fenced ```yaml block containing one ast-grep rule with fields: id, language, category, severity, message, rule (and constraints if needed), following ast-grep's YAML rule schema. If NO — the issue genuinely needs cross-file reasoning, type information, or subjective judgment a syntactic pattern can't express — respond with ONLY a fenced ```text block whose content starts with \"";

pub const SYSTEM_PROMPT: &'static str = "You are a precise rule-authoring assistant for a static-analysis rule pack. You only claim a pattern is expressible when you are confident a syntactic tree-sitter match can express it.";

/// What came of drafting.
#[derive(Debug, Clone, PartialEq, Eq)]
pub enum DraftOutcome {
    /// Enough attempts agreed on a rule, up to white space.
    Drafted { rule_yaml: String, agreement_count: usize },
    /// They did not, or judged a rule impossible.
    Inexpressible { rationale: String },
}

/// What a `DraftOutcome` says.
pub enum OutcomeView {
    Drafted { rule_yaml: Seq<char>, agreement_count: nat },
    Inexpressible { rationale: Seq<char> },
}

impl View for DraftOutcome {
    type V = OutcomeView;

    open spec fn view(&self) -> OutcomeView {
        match self {
            DraftOutcome::Drafted { rule_yaml, agreement_count } => OutcomeView::Drafted {
                rule_yaml: rule_yaml@,
                agreement_count: *agreement_count as nat,
            },
            DraftOutcome::Inexpressible { rationale } => OutcomeView::Inexpressible {
                rationale: rationale@,
            },
        }
    }
}

/// What the prompt says of the snippets, one below the other.
pub open spec fn example_lines(snippets: Seq<SnippetView>) -> Seq<Seq<char>> {
    Seq::new(
        snippets.len(),
        |i: int|
            text::glued(
                seq!["- title: "@, snippets[i].title, "\n  message: "@, snippets[i].message],
            ),
    )
}

/// The prompt for a seed.
pub open spec fn draft_prompt(seed: SeedView) -> Seq<char> {
    text::glued(
        seq![
            PROMPT_OPENING@,
            seed.category,
            "\nRecurring finding examples from this cluster:\n"@,
            text::joined(example_lines(seed.representative_snippets), "\n"@),
            PROMPT_QUESTION@,
            INEXPRESSIBLE_MARKER@,
            "\" followed by a one-sentence reason."@,
        ],
    )
}

/// The request for a seed.
pub open spec fn draft_request(seed: SeedView, model: Seq<char>, max_turns: u32, cwd: Seq<char>) -> RequestView {
    RequestView {
        prompt: draft_prompt(seed),
        system_prompt: SYSTEM_PROMPT@,
        allowed_tools: Seq::empty(),
        max_turns,
        model,
        cwd,
    }
}

fn example_texts(snippets: &Vec<RepresentativeSnippet>) -> (lines: Vec<String>)
    ensures
        text::views(lines@) == example_lines(text::views(snippets@)),
{
    let ghost all = example_lines(text::views(snippets@));
    let mut lines: Vec<String> = Vec::new();
    let mut i: usize = 0;
    while i < snippets.len()
        invariant
            0 <= i <= snippets@.len(),
            all == example_lines(text::views(snippets@)),
            lines@.len() == i,
            forall|j: int| 0 <= j < i ==> (#[trigger] lines@[j])@ == all[j],
        decreases snippets.len() - i,
    {
        let parts: [&str; 4] = [
            "- title: ",
            snippets[i].title.as_str(),
            "\n  message: ",
            snippets[i].message.as_str(),
        ];
        let line: String = text::glue(&parts);
        proof {
            assert(text::views(parts@) =~= seq![
                "- title: "@,
                snippets@[i as int].title@,
                "\n  message: "@,
                snippets@[i as int].message@,
            ]);
        }
        lines.push(line);
        i += 1;
    }
    proof {
        assert(text::views(lines@) =~= all);
    }
    lines
}

fn build_draft_prompt(seed: &CandidateSeed) -> (prompt: String)
    ensures
        prompt@ == draft_prompt(seed@),
{
    let examples: String = text::join(&example_texts(&seed.representative_snippets), "\n");
    let parts: [&str; 7] = [
        PROMPT_OPENING,
        seed.category.as_str(),
        "\nRecurring finding examples from this cluster:\n",
        examples.as_str(),
        PROMPT_QUESTION,
        INEXPRESSIBLE_MARKER,
        "\" followed by a one-sentence reason.",
    ];
    let prompt: String = text::glue(&parts);
    proof {
        assert(text::views(parts@) =~= seq![
            PROMPT_OPENING@,
            seed.category@,
            "\nRecurring finding examples from this cluster:\n"@,
            examples@,
            PROMPT_QUESTION@,
            INEXPRESSIBLE_MARKER@,
            "\" followed by a one-sentence reason."@,
        ]);
    }
    prompt
}

/// A draft with every run of white space as one space.
pub open spec fn normalized(draft: Seq<char>) -> Seq<char> {
    text::joined(text::words_of(draft), " "@)
}

/// Drafts with every run of white space as one space.
pub open spec fn normalized_all(drafts: Seq<Seq<char>>) -> Seq<Seq<char>> {
    Seq::new(drafts.len(), |i: int| normalized(drafts[i]))
}

/// How often a key is in a list.
pub open spec fn times(keys: Seq<Seq<char>>, key: Seq<char>) -> nat
    decreases keys.len(),
{
    if keys.len() == 0 {
        0
    } else {
        times(keys.drop_last(), key) + if keys.last() == key {
            1nat
        } else {
            0
        }
    }
}

/// The first position of the key that is most often in a list, among the first
/// `n` positions; of keys that are equally often in it, the one that comes up
/// last. -1 without any.
pub open spec fn leader(keys: Seq<Seq<char>>, n: nat) -> int
    decreases n,
{
    if n == 0 {
        -1
    } else {
        let before = leader(keys, (n - 1) as nat);
        let i = n - 1;
        if keys.take(i).contains(keys[i]) {
            before
        } else if before < 0 || times(keys, keys[i]) >= times(keys, keys[before]) {
            i
        } else {
            before
        }
    }
}

/// What comes of drafts, given how many attempts judged a rule impossible.
pub open spec fn agreed_on(drafts: Seq<Seq<char>>, inexpressible: nat) -> OutcomeView {
    let keys = normalized_all(drafts);
    let best = leader(keys, keys.len());
    if best >= 0 && times(keys, keys[best]) >= MIN_AGREEMENT {
        OutcomeView::Drafted {
            rule_yaml: drafts[best],
            agreement_count: times(keys, keys[best]),
        }
    } else if inexpressible >= MIN_AGREEMENT {
        OutcomeView::Inexpressible { rationale: JUDGED_IMPOSSIBLE@ }
    } else {
        OutcomeView::Inexpressible { rationale: NO_AGREEMENT@ }
    }
}

/// Why a seed that most attempts judged impossible has no rule.
pub const JUDGED_IMPOSSIBLE: &'static str = "a majority of drafting attempts judged this cluster inexpressible as a syntactic rule";

/// Why a seed without agreement has no rule.
pub const NO_AGREEMENT: &'static str = "fewer than 3 of 5 drafting attempts agreed on a single pattern";

fn normalize_yaml(draft: &str) -> (key: String)
    ensures
        key@ == normalized(draft@),
{
    text::join(&text::words(draft), " ")
}

fn count_key(keys: &Vec<String>, key: &str) -> (n: usize)
    ensures
        n == times(text::views(keys@), key@),
        n <= keys@.len(),
{
    let ghost all = text::views(keys@);
    let mut n: usize = 0;
    let mut i: usize = 0;
    while i < keys.len()
        invariant
            0 <= i <= keys@.len(),
            all == text::views(keys@),
            n == times(all.take(i as int), key@),
            n <= i,
        decreases keys.len() - i,
    {
        proof {
            assert(all.take(i + 1).drop_last() =~= all.take(i as int));
            assert(all.take(i + 1).last() == keys@[i as int]@);
        }
        if text::same(keys[i].as_str(), key) {
            n += 1;
        }
        i += 1;
    }
    proof {
        assert(all.take(all.len() as int) =~= all);
    }
    n
}

fn comes_earlier(keys: &Vec<String>, i: usize) -> (r: bool)
    requires
        i < keys@.len(),
    ensures
        r == text::views(keys@).take(i as int).contains(text::views(keys@)[i as int]),
{
    let ghost all = text::views(keys@);
    let mut j: usize = 0;
    while j < i
        invariant
            0 <= j <= i < keys@.len(),
            all == text::views(keys@),
            forall|k: int| 0 <= k < j ==> all[k] != all[i as int],
        decreases i - j,
    {
        if text::same(keys[j].as_str(), keys[i].as_str()) {
            proof {
                assert(all.take(i as int)[j as int] == all[i as int]);
            }
            return true;
        }
        j += 1;
    }
    false
}

/// What comes of drafts, given how many attempts judged a rule impossible: the
/// draft that the most attempts agree on, up to white space, if they are
/// enough.
pub fn best_agreement(yaml_attempts: &Vec<String>, inexpressible_count: usize) -> (outcome:
    DraftOutcome)
    ensures
        outcome@ == agreed_on(text::views(yaml_attempts@), inexpressible_count as nat),
{
    let ghost drafts = text::views(yaml_attempts@);
    let ghost all = normalized_all(drafts);
    let mut keys: Vec<String> = Vec::new();
    let mut i: usize = 0;
    while i < yaml_attempts.len()
        invariant
            0 <= i <= yaml_attempts@.len(),
            drafts == text::views(yaml_attempts@),
            all == normalized_all(drafts),
            keys@.len() == i,
            forall|j: int| 0 <= j < i ==> (#[trigger] keys@[j])@ == all[j],
        decreases yaml_attempts.len() - i,
    {
        keys.push(normalize_yaml(yaml_attempts[i].as_str()));
        i += 1;
    }
    proof {
        assert(text::views(keys@) =~= all);
    }
    let mut best: Option<usize> = None;
    let mut best_count: usize = 0;
    i = 0;
    while i < keys.len()
        invariant
            0 <= i <= keys@.len(),
            all == text::views(keys@),
            match best {
                Some(b) => b < i && leader(all, i as nat) == b && best_count == times(
                    all,
                    all[b as int],
                ),
                None => leader(all, i as nat) == -1,
            },
        decreases keys.len() - i,
    {
        if !comes_earlier(&keys, i) {
            let count: usize = count_key(&keys, keys[i].as_str());
            if best.is_none() || count >= best_count {
                best = Some(i);
                best_count = count;
            }
        }
        i += 1;
    }
    if let Some(b) = best {
        if best_count >= MIN_AGREEMENT {
            return DraftOutcome::Drafted {
                rule_yaml: yaml_attempts[b].clone(),
                agreement_count: best_count,
            };
        }
    }
    if inexpressible_count >= MIN_AGREEMENT {
        return DraftOutcome::Inexpressible { rationale: JUDGED_IMPOSSIBLE.to_owned() };
    }
    DraftOutcome::Inexpressible { rationale: NO_AGREEMENT.to_owned() }
}

/// An answer that judges a rule impossible.
pub open spec fn judges_impossible(block: Seq<char>) -> bool {
    text::begins(text::trimmed_start(block), INEXPRESSIBLE_MARKER@)
}

/// The drafts among replies.
pub open spec fn drafts_in(replies: Seq<Result<InvokeResult, AgentError>>) -> Seq<Seq<char>>
    decreases replies.len(),
{
    if replies.len() == 0 {
        Seq::empty()
    } else {
        match agents::block_of(replies.last()) {
            Some(block) => if judges_impossible(block) {
                drafts_in(replies.drop_last())
            } else {
                drafts_in(replies.drop_last()).push(block)
            },
            None => drafts_in(replies.drop_last()),
        }
    }
}

/// How many replies judge a rule impossible.
pub open spec fn refusals_in(replies: Seq<Result<InvokeResult, AgentError>>) -> nat
    decreases replies.len(),
{
    if replies.len() == 0 {
        0
    } else {
        refusals_in(replies.drop_last()) + if agents::block_of(replies.last()) is Some && judges_impossible(
            agents::block_of(replies.last())->Some_0,
        ) {
            1nat
        } else {
            0
        }
    }
}

/// What the replies used together.
pub open spec fn usage_in(replies: Seq<Result<InvokeResult, AgentError>>) -> Usage
    decreases replies.len(),
{
    if replies.len() == 0 {
        Usage::none()
    } else {
        match replies.last() {
            Ok(result) => usage_in(replies.drop_last()).plus(result.usage),
            Err(_) => usage_in(replies.drop_last()),
        }
    }
}

/// What comes of replies: a failed attempt, or one without a fenced block,
/// counts for nothing.
pub fn outcome_of_replies(replies: &Vec<Result<InvokeResult, AgentError>>) -> (drafted: (
    DraftOutcome,
    Usage,
))
    ensures
        drafted.0@ == agreed_on(drafts_in(replies@), refusals_in(replies@)),
        drafted.1 == usage_in(replies@),
{
    let mut usage: Usage = Usage::default();
    let mut drafts: Vec<String> = Vec::new();
    let mut refusals: usize = 0;
    proof {
        assert(text::views(drafts@) =~= Seq::empty());
    }
    let mut i: usize = 0;
    while i < replies.len()
        invariant
            0 <= i <= replies@.len(),
            usage == usage_in(replies@.take(i as int)),
            text::views(drafts@) == drafts_in(replies@.take(i as int)),
            refusals == refusals_in(replies@.take(i as int)),
            refusals <= i,
        decreases replies.len() - i,
    {
        proof {
            assert(replies@.take(i + 1).drop_last() =~= replies@.take(i as int));
            assert(replies@.take(i + 1).last() == replies@[i as int]);
        }
        if let Ok(result) = &replies[i] {
            usage.add(&result.usage);
            if let Some(block) = agents::extract_last_fenced_block(result.final_text.as_str()) {
                if text::starts_with(text::trim_start(block), INEXPRESSIBLE_MARKER) {
                    refusals += 1;
                } else {
                    let draft: String = block.to_owned();
                    proof {
                        text::lemma_views_push(drafts@, draft);
                    }
                    drafts.push(draft);
                }
            }
        }
        i += 1;
    }
    proof {
        assert(replies@.take(replies@.len() as int) =~= replies@);
    }
    (best_agreement(&drafts, refusals), usage)
}

/// The backend gave these replies to the requests for a seed.
pub open spec fn all_answered<B: AgentBackend>(
    backend: &B,
    request: RequestView,
    replies: Seq<Result<InvokeResult, AgentError>>,
) -> bool {
    forall|i: int|
        0 <= i < replies.len() ==> agents::answered(backend, request, #[trigger] replies[i])
}

/// Has a rule drafted for a seed, and tells what came of it and what it used.
pub fn draft_candidate<B: AgentBackend>(
    backend: &B,
    seed: &CandidateSeed,
    model: &str,
    max_turns: u32,
    cwd: &str,
) -> (drafted: (DraftOutcome, Usage))
    ensures
        exists|replies: Seq<Result<InvokeResult, AgentError>>|
            replies.len() == ATTEMPTS && #[trigger] all_answered(
                backend,
                draft_request(seed@, model@, max_turns, cwd@),
                replies,
            ) && drafted.0@ == agreed_on(drafts_in(replies), refusals_in(replies)) && drafted.1
                == usage_in(replies),
{
    let prompt: String = build_draft_prompt(seed);
    let mut replies: Vec<Result<InvokeResult, AgentError>> = Vec::new();
    let ghost asked = draft_request(seed@, model@, max_turns, cwd@);
    while replies.len() < ATTEMPTS
        invariant
            replies@.len() <= ATTEMPTS,
            prompt@ == draft_prompt(seed@),
            asked == draft_request(seed@, model@, max_turns, cwd@),
            all_answered(backend, asked, replies@),
        decreases ATTEMPTS - replies.len(),
    {
        let no_tools: Vec<String> = Vec::new();
        let request = InvokeRequest {
            prompt: prompt.clone(),
            system_prompt: SYSTEM_PROMPT.to_owned(),
            allowed_tools: no_tools,
            max_turns,
            model: model.to_owned(),
            cwd: cwd.to_owned(),
        };
        proof {
            assert(text::views(request.allowed_tools@) =~= Seq::empty());
        }
        replies.push(agents::ask(backend, &request));
    }
    outcome_of_replies(&replies)
}

proof fn lemma_times_bound(keys: Seq<Seq<char>>, key: Seq<char>)
    ensures
        times(keys, key) <= keys.len(),
    decreases keys.len(),
{
    if keys.len() > 0 {
        lemma_times_bound(keys.drop_last(), key);
    }
}

proof fn lemma_leader_bound(keys: Seq<Seq<char>>, n: nat)
    ensures
        -1 <= leader(keys, n) < n,
    decreases n,
{
    if n > 0 {
        lemma_leader_bound(keys, (n - 1) as nat);
    }
}

/// A rule is kept only where at least three drafts agree on it, and it is one
/// of them.
pub proof fn kept_rules_are_agreed_on(drafts: Seq<Seq<char>>, inexpressible: nat)
    ensures
        agreed_on(drafts, inexpressible) matches OutcomeView::Drafted { rule_yaml, agreement_count }
            ==> {
            &&& MIN_AGREEMENT <= agreement_count <= drafts.len()
            &&& drafts.contains(rule_yaml)
            &&& agreement_count == times(normalized_all(drafts), normalized(rule_yaml))
        },
{
    let keys = normalized_all(drafts);
    let best = leader(keys, keys.len());
    lemma_leader_bound(keys, keys.len());
    if best >= 0 {
        lemma_times_bound(keys, keys[best]);
        assert(drafts.contains(drafts[best]));
    }
}

/// A rule is kept where three drafts or more are the same but for white space, and
/// no draft is met more often. Where there is none, three refusals or more say that
/// there can be none.
pub proof fn three_drafts_must_agree(drafts: Seq<Seq<char>>, refusals: nat)
    ensures
        ({
            let said = |i: int| text::joined(text::words_of(drafts[i]), " "@);
            let keys = Seq::new(drafts.len(), said);
            let outcome = agreed_on(drafts, refusals);
            &&& (exists|i: int| 0 <= i < keys.len() && times(keys, #[trigger] keys[i]) >= 3)
                ==> outcome is Drafted
            &&& outcome matches OutcomeView::Drafted { rule_yaml, agreement_count }
                ==> agreement_count >= 3 && forall|i: int|
                0 <= i < keys.len() ==> times(keys, #[trigger] keys[i]) <= agreement_count
            &&& (forall|i: int| 0 <= i < keys.len() ==> times(keys, #[trigger] keys[i]) < 3) ==> {
                &&& refusals >= 3 ==> outcome == (OutcomeView::Inexpressible {
                    rationale: JUDGED_IMPOSSIBLE@,
                })
                &&& refusals < 3 ==> outcome == (OutcomeView::Inexpressible {
                    rationale: NO_AGREEMENT@,
                })
            }
        }),
{
    let keys = normalized_all(drafts);
    assert(keys =~= Seq::new(
        drafts.len(),
        |i: int| text::joined(text::words_of(drafts[i]), " "@),
    ));
    lemma_leader_leads(keys, keys.len());
    if exists|i: int| 0 <= i < keys.len() && times(keys, #[trigger] keys[i]) >= 3 {
        let i = choose|i: int| 0 <= i < keys.len() && times(keys, #[trigger] keys[i]) >= 3;
        assert(times(keys, keys[i]) <= times(keys, keys[leader(keys, keys.len())]));
    }
}

proof fn lemma_leader_leads(keys: Seq<Seq<char>>, n: nat)
    requires
        n <= keys.len(),
    ensures
        n > 0 ==> 0 <= leader(keys, n) < n,
        n == 0 ==> leader(keys, n) < 0,
        forall|i: int|
            0 <= i < n ==> times(keys, #[trigger] keys[i]) <= times(keys, keys[leader(keys, n)]),
    decreases n,
{
    if n > 0 {
        lemma_leader_leads(keys, (n - 1) as nat);
        let i = n - 1;
        if keys.take(i).contains(keys[i]) {
            let j = choose|j: int| 0 <= j < i && keys.take(i)[j] == keys[i];
            assert(keys[j] == keys[i]);
        }
    }
}

/// How often a key is met.
pub proof fn keys_are_counted(keys: Seq<Seq<char>>, key: Seq<char>)
    ensures
        times(keys, key) == keys.filter(|k: Seq<char>| k == key).len(),
    decreases keys.len(),
{
    reveal(Seq::filter);
    if keys.len() > 0 {
        keys_are_counted(keys.drop_last(), key);
    }
}

/// What one more reply adds: a draft where its last fenced block does not begin with
/// the marker, white space aside, a refusal where it does, and nothing without a
/// block. Every reply that came costs what it used.
pub proof fn replies_are_drafts_or_refusals(
    replies: Seq<Result<InvokeResult, AgentError>>,
    reply: Result<InvokeResult, AgentError>,
)
    ensures
        ({
            let more = replies.push(reply);
            let block = match reply {
                Ok(r) => agents::fenced_block(r.final_text@),
                Err(_) => None,
            };
            &&& block is None ==> drafts_in(more) == drafts_in(replies) && refusals_in(more)
                == refusals_in(replies)
            &&& block matches Some(b) ==> {
                let refused = text::begins(text::trimmed_start(b), "INEXPRESSIBLE:"@);
                &&& refused ==> drafts_in(more) == drafts_in(replies) && refusals_in(more)
                    == refusals_in(replies) + 1
                &&& !refused ==> drafts_in(more) == drafts_in(replies).push(b) && refusals_in(more)
                    == refusals_in(replies)
            }
            &&& reply is Err ==> usage_in(more) == usage_in(replies)
            &&& reply matches Ok(r) ==> {
                let (was, is) = (usage_in(replies), usage_in(more));
                &&& was.input_tokens + r.usage.input_tokens <= u64::MAX ==> is.input_tokens
                    == was.input_tokens + r.usage.input_tokens
                &&& was.output_tokens + r.usage.output_tokens <= u64::MAX ==> is.output_tokens
                    == was.output_tokens + r.usage.output_tokens
            }
        }),
        drafts_in(Seq::empty()).len() == 0,
        refusals_in(Seq::empty()) == 0,
        usage_in(Seq::empty()).input_tokens == 0,
        usage_in(Seq::empty()).output_tokens == 0,
{
    assert(replies.push(reply).drop_last() =~= replies);
}

/// A draft is asked for without tools, of the model, in the turns and in the place
/// that were given.
pub proof fn drafts_are_asked_for_without_tools(
    seed: SeedView,
    model: Seq<char>,
    max_turns: u32,
    cwd: Seq<char>,
)
    ensures
        ({
            let r = draft_request(seed, model, max_turns, cwd);
            r.allowed_tools.len() == 0 && r.model == model && r.max_turns == max_turns && r.cwd
                == cwd
        }),
{
}

/// A draft is told the category and the examples, each with its title and its
/// message, one behind the other.
pub proof fn drafts_are_told_the_examples(seed: SeedView, i: int)
    requires
        0 <= i < seed.representative_snippets.len(),
    ensures
        text::has(
            draft_prompt(seed),
            seed.category + "\nRecurring finding examples from this cluster:\n"@ + text::joined(
                example_lines(seed.representative_snippets),
                "\n"@,
            ),
        ),
        example_lines(seed.representative_snippets).len() == seed.representative_snippets.len(),
        example_lines(seed.representative_snippets)[i] == "- title: "@
            + seed.representative_snippets[i].title + "\n  message: "@
            + seed.representative_snippets[i].message,
{
    let s = seed.representative_snippets[i];
    text::lemma_glued_few("- title: "@, s.title, "\n  message: "@, s.message);
    let parts = seq![
        PROMPT_OPENING@,
        seed.category,
        "\nRecurring finding examples from this cluster:\n"@,
        text::joined(example_lines(seed.representative_snippets), "\n"@),
        PROMPT_QUESTION@,
        INEXPRESSIBLE_MARKER@,
        "\" followed by a one-sentence reason."@,
    ];
    text::lemma_glued_has(parts, 1, 4);
    assert(parts.subrange(1, 4) =~= seq![seed.category, "\nRecurring finding examples from this cluster:\n"@, text::joined(example_lines(seed.representative_snippets), "\n"@)]);
    text::lemma_glued_few(seed.category, "\nRecurring finding examples from this cluster:\n"@, text::joined(example_lines(seed.representative_snippets), "\n"@), Seq::empty());
}

} // verus!
