//! A second opinion on a score at the boundary of two tiers. An agent picks one
//! of the two; whatever else it answers counts for nothing.

use vstd::prelude::*;

use crate::agents;
use crate::agents::{AgentBackend, AgentError, InvokeRequest, InvokeResult, RequestView};
use crate::schema::Tier;
use crate::text;
use crate::triage::signals::{DiffFacts, DiffFactsView, FileChange, FileChangeView};

verus! {

/// How many files the prompt lists at most.
pub const MAX_LISTED_FILES: usize = 20;

/// Who the agent is asked to be.
pub const SYSTEM_PROMPT: &'static str = "You are a precise, low-latency triage classifier for a code review tool. You answer with only the requested JSON, no other tools or exploration needed.";

/// What the prompt says of the boundary.
pub const PROMPT_TASK: &'static str = "' review tiers — the heuristic itself is not confident here. You are the tie-breaker: pick whichever tier actually fits the risk of this diff, based on what changed, not the score.\n\nChanged files (";

/// The tier that a word names.
pub open spec fn named_tier(word: Seq<char>) -> Option<Tier> {
    if word == "quick"@ {
        Some(Tier::Quick)
    } else if word == "standard"@ {
        Some(Tier::Standard)
    } else if word == "deep"@ {
        Some(Tier::Deep)
    } else {
        None
    }
}

/// The tier that a word names.
pub fn parse_tier(word: &str) -> (tier: Option<Tier>)
    ensures
        tier == named_tier(word@),
{
    if text::same(word, "quick") {
        Some(Tier::Quick)
    } else if text::same(word, "standard") {
        Some(Tier::Standard)
    } else if text::same(word, "deep") {
        Some(Tier::Deep)
    } else {
        None
    }
}

/// What the prompt says of a file.
pub open spec fn file_line(file: FileChangeView) -> Seq<char> {
    text::glued(
        seq![
            "- "@,
            file.path,
            " (+"@,
            text::decimal_of(file.additions as nat),
            " -"@,
            text::decimal_of(file.deletions as nat),
            ")"@,
        ],
    )
}

/// What the prompt says of the files: the first of them, one per line.
pub open spec fn file_lines(files: Seq<FileChangeView>) -> Seq<Seq<char>> {
    Seq::new(
        if files.len() < MAX_LISTED_FILES {
            files.len()
        } else {
            MAX_LISTED_FILES as nat
        },
        |i: int| file_line(files[i]),
    )
}

/// The prompt for a diff with a score between two tiers.
pub open spec fn classify_prompt(facts: DiffFactsView, score: int, lower: Tier, upper: Tier) -> Seq<char> {
    text::glued(
        seq![
            "A code-review triage heuristic scored this diff at "@,
            text::one_decimal_of(score),
            ", which falls right on the boundary between the '"@,
            lower.label(),
            "' and '"@,
            upper.label(),
            PROMPT_TASK@,
            text::decimal_of(facts.files.len()),
            " total, showing up to 20):\n"@,
            text::joined(file_lines(facts.files), "\n"@),
            "\n\nsensitive path touched: "@,
            text::truth_of(facts.sensitive_path_hit),
            "\ndependency/lockfile changed: "@,
            text::truth_of(facts.dependency_change),
            "\nCI/infra changed: "@,
            text::truth_of(facts.ci_or_infra_change),
            "\ntests touched alongside source: "@,
            text::truth_of(facts.tests_touched),
            "\n\nRespond with ONLY a fenced ```json block of the exact shape {\"tier\": \""@,
            lower.label(),
            "\"|\""@,
            upper.label(),
            "\"}. Pick exactly one of those two tiers — do not pick a third tier outside this boundary."@,
        ],
    )
}

/// The request for a diff with a score between two tiers.
pub open spec fn classify_request(
    facts: DiffFactsView,
    score: int,
    lower: Tier,
    upper: Tier,
    model: Seq<char>,
    cwd: Seq<char>,
) -> RequestView {
    RequestView {
        prompt: classify_prompt(facts, score, lower, upper),
        system_prompt: SYSTEM_PROMPT@,
        allowed_tools: Seq::empty(),
        max_turns: 1,
        model,
        cwd,
    }
}

fn line_for(file: &FileChange) -> (line: String)
    ensures
        line@ == file_line(file@),
{
    let added: String = text::decimal(file.additions as u64);
    let deleted: String = text::decimal(file.deletions as u64);
    let parts: [&str; 7] = [
        "- ",
        file.path.as_str(),
        " (+",
        added.as_str(),
        " -",
        deleted.as_str(),
        ")",
    ];
    proof {
        assert(text::views(parts@) =~= seq![
            "- "@,
            file.path@,
            " (+"@,
            added@,
            " -"@,
            deleted@,
            ")"@,
        ]);
    }
    text::glue(&parts)
}

fn list_files(files: &Vec<FileChange>) -> (list: String)
    ensures
        list@ == text::joined(file_lines(text::views(files@)), "\n"@),
{
    let ghost all = file_lines(text::views(files@));
    let mut lines: Vec<String> = Vec::new();
    let mut i: usize = 0;
    while i < files.len() && i < MAX_LISTED_FILES
        invariant
            0 <= i <= files@.len(),
            i <= MAX_LISTED_FILES,
            all == file_lines(text::views(files@)),
            lines@.len() == i,
            forall|j: int| 0 <= j < i ==> (#[trigger] lines@[j])@ == all[j],
        decreases files.len() - i,
    {
        lines.push(line_for(&files[i]));
        i += 1;
    }
    proof {
        assert(text::views(lines@) =~= all);
    }
    text::join(&lines, "\n")
}

fn build_prompt(facts: &DiffFacts, score: i128, lower: Tier, upper: Tier) -> (prompt: String)
    ensures
        prompt@ == classify_prompt(facts@, score as int, lower, upper),
{
    let shown: String = text::one_decimal(score);
    let count: String = text::decimal(facts.files.len() as u64);
    let list: String = list_files(&facts.files);
    let parts: [&str; 23] = [
        "A code-review triage heuristic scored this diff at ",
        shown.as_str(),
        ", which falls right on the boundary between the '",
        lower.as_str(),
        "' and '",
        upper.as_str(),
        PROMPT_TASK,
        count.as_str(),
        " total, showing up to 20):\n",
        list.as_str(),
        "\n\nsensitive path touched: ",
        text::truth(facts.sensitive_path_hit),
        "\ndependency/lockfile changed: ",
        text::truth(facts.dependency_change),
        "\nCI/infra changed: ",
        text::truth(facts.ci_or_infra_change),
        "\ntests touched alongside source: ",
        text::truth(facts.tests_touched),
        "\n\nRespond with ONLY a fenced ```json block of the exact shape {\"tier\": \"",
        lower.as_str(),
        "\"|\"",
        upper.as_str(),
        "\"}. Pick exactly one of those two tiers — do not pick a third tier outside this boundary.",
    ];
    proof {
        assert(text::views(facts.files@).len() == facts.files@.len());
        assert(text::views(parts@) =~= seq![
            "A code-review triage heuristic scored this diff at "@,
            text::one_decimal_of(score as int),
            ", which falls right on the boundary between the '"@,
            lower.label(),
            "' and '"@,
            upper.label(),
            PROMPT_TASK@,
            text::decimal_of(facts@.files.len()),
            " total, showing up to 20):\n"@,
            text::joined(file_lines(facts@.files), "\n"@),
            "\n\nsensitive path touched: "@,
            text::truth_of(facts.sensitive_path_hit),
            "\ndependency/lockfile changed: "@,
            text::truth_of(facts.dependency_change),
            "\nCI/infra changed: "@,
            text::truth_of(facts.ci_or_infra_change),
            "\ntests touched alongside source: "@,
            text::truth_of(facts.tests_touched),
            "\n\nRespond with ONLY a fenced ```json block of the exact shape {\"tier\": \""@,
            lower.label(),
            "\"|\""@,
            upper.label(),
            "\"}. Pick exactly one of those two tiers — do not pick a third tier outside this boundary."@,
        ]);
    }
    text::glue(&parts)
}

/// The tier that an answer picks: the one it names, if that is one of the two.
pub open spec fn picked(said: Option<Seq<char>>, lower: Tier, upper: Tier) -> Option<Tier> {
    match said {
        Some(word) => match named_tier(word) {
            Some(tier) => if tier == lower || tier == upper {
                Some(tier)
            } else {
                None
            },
            None => None,
        },
        None => None,
    }
}

/// The tier that an answer picks: the one it names, if that is one of the two.
pub fn pick(said: &Option<String>, lower: Tier, upper: Tier) -> (tier: Option<Tier>)
    ensures
        tier == picked(text::optional(*said), lower, upper),
{
    match said {
        Some(word) => match parse_tier(word.as_str()) {
            Some(tier) => if tier == lower || tier == upper {
                Some(tier)
            } else {
                None
            },
            None => None,
        },
        None => None,
    }
}

/// The reader makes this word of the fenced block of a reply. There is none
/// without a reply or a block.
pub open spec fn word_read<P: Fn(&str) -> Option<String>>(
    read: &P,
    reply: Result<InvokeResult, AgentError>,
    said: Option<String>,
) -> bool {
    agents::read_by(read, agents::block_of(reply), said)
}

/// Asks an agent which of two tiers fits a diff. `read` reads the tier out of
/// the agent's fenced block, if it holds one. The score is in millionths of a
/// point.
pub fn classify_ambiguous_tier<B: AgentBackend, P: Fn(&str) -> Option<String>>(
    backend: &B,
    read: &P,
    facts: &DiffFacts,
    score: i128,
    lower: Tier,
    upper: Tier,
    model: &str,
    cwd: &str,
) -> (tier: Option<Tier>)
    requires
        forall|block: &str| call_requires(read, (block,)),
    ensures
        exists|reply: Result<InvokeResult, AgentError>, said: Option<String>| #[trigger]
            agents::answered(
                backend,
                classify_request(facts@, score as int, lower, upper, model@, cwd@),
                reply,
            ) && #[trigger] word_read(read, reply, said) && tier == picked(
                text::optional(said),
                lower,
                upper,
            ),
{
    let no_tools: Vec<String> = Vec::new();
    let request = InvokeRequest {
        prompt: build_prompt(facts, score, lower, upper),
        system_prompt: SYSTEM_PROMPT.to_owned(),
        allowed_tools: no_tools,
        max_turns: 1,
        model: model.to_owned(),
        cwd: cwd.to_owned(),
    };
    proof {
        assert(text::views(request.allowed_tools@) =~= Seq::empty());
        assert(request@ == classify_request(facts@, score as int, lower, upper, model@, cwd@));
    }
    let reply: Result<InvokeResult, AgentError> = agents::ask(backend, &request);
    let said: Option<String> = agents::read_reply(read, &reply);
    proof {
        assert(agents::answered(
            backend,
            classify_request(facts@, score as int, lower, upper, model@, cwd@),
            reply,
        ));
        assert(word_read(read, reply, said));
    }
    pick(&said, lower, upper)
}

/// Whatever an agent answers, it never moves a review to a tier that it was not
/// asked about.
pub proof fn only_the_two_tiers_are_picked(said: Option<Seq<char>>, lower: Tier, upper: Tier)
    ensures
        picked(said, lower, upper) matches Some(tier) ==> tier == lower || tier == upper,
{
}

/// The word of either of the two tiers picks that tier; another word, or none,
/// picks nothing.
pub proof fn words_pick_their_tier(lower: Tier, upper: Tier, word: Seq<char>)
    ensures
        word == "quick"@ && (lower == Tier::Quick || upper == Tier::Quick) ==> picked(
            Some(word),
            lower,
            upper,
        ) == Some(Tier::Quick),
        word == "standard"@ && (lower == Tier::Standard || upper == Tier::Standard) ==> picked(
            Some(word),
            lower,
            upper,
        ) == Some(Tier::Standard),
        word == "deep"@ && (lower == Tier::Deep || upper == Tier::Deep) ==> picked(
            Some(word),
            lower,
            upper,
        ) == Some(Tier::Deep),
        word != "quick"@ && word != "standard"@ && word != "deep"@ ==> picked(
            Some(word),
            lower,
            upper,
        ) is None,
        picked(None, lower, upper) is None,
        picked(Some(lower.label()), lower, upper) == Some(lower),
        picked(Some(upper.label()), lower, upper) == Some(upper),
{
    reveal_strlit("quick");
    reveal_strlit("standard");
    reveal_strlit("deep");
    assert("quick"@.len() != "standard"@.len());
    assert("quick"@.len() != "deep"@.len());
    assert("standard"@.len() != "deep"@.len());
}

/// The tie is settled in one turn, without tools, of the model and in the place
/// that were given. At most twenty files are listed, the first ones in order.
pub proof fn ties_are_settled_in_one_turn(
    facts: DiffFactsView,
    score: int,
    lower: Tier,
    upper: Tier,
    model: Seq<char>,
    cwd: Seq<char>,
)
    ensures
        ({
            let r = classify_request(facts, score, lower, upper, model, cwd);
            r.max_turns == 1 && r.allowed_tools.len() == 0 && r.model == model && r.cwd == cwd
        }),
        facts.files.len() <= 20 ==> file_lines(facts.files).len() == facts.files.len(),
        facts.files.len() > 20 ==> file_lines(facts.files).len() == 20,
        forall|i: int|
            0 <= i < file_lines(facts.files).len() ==> text::begins(
                #[trigger] file_lines(facts.files)[i],
                "- "@ + facts.files[i].path,
            ),
{
    assert forall|i: int| 0 <= i < file_lines(facts.files).len() implies text::begins(
        #[trigger] file_lines(facts.files)[i],
        "- "@ + facts.files[i].path,
    ) by {
        let f = facts.files[i];
        let parts = seq![
            "- "@,
            f.path,
            " (+"@,
            text::decimal_of(f.additions as nat),
            " -"@,
            text::decimal_of(f.deletions as nat),
            ")"@,
        ];
        reveal_with_fuel(text::glued, 8);
        let head = "- "@ + f.path;
        let whole = text::glued(parts);
        assert(text::glued(parts.take(2)) =~= head) by {
            assert(parts.take(2).drop_last() =~= seq!["- "@]);
            assert(seq!["- "@].drop_last() =~= Seq::<Seq<char>>::empty());
        }
        text::lemma_glued_begins(parts, 2);
    }
}

} // verus!
