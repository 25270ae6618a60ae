//! Groups repeated false-positive reports with a note into seeds for negative
//! guidance, and has one line of guidance drafted for a seed.

use vstd::prelude::*;

use crate::agents;
use crate::agents::{AgentBackend, AgentError, InvokeRequest, InvokeResult, RequestView, Usage};
use crate::clusters;
use crate::digest;
use crate::storage::history_store::{FpFeedbackRow, FpRowView};
use crate::text;

verus! {

/// How many reports a seed has at least.
pub const MIN_CLUSTER_MEMBERS: usize = 3;

/// A cluster of false-positive reports that is worth a line of guidance.
#[derive(Debug, Clone, PartialEq, Eq)]
pub struct NegativeGuidanceSeed {
    pub cluster_id: String,
    pub category: String,
    pub representative_title: String,
    pub representative_message: String,
    pub notes: Vec<String>,
}

/// What a `NegativeGuidanceSeed` says.
pub struct GuidanceSeedView {
    pub cluster_id: Seq<char>,
    pub category: Seq<char>,
    pub representative_title: Seq<char>,
    pub representative_message: Seq<char>,
    pub notes: Seq<Seq<char>>,
}

impl View for NegativeGuidanceSeed {
    type V = GuidanceSeedView;

    open spec fn view(&self) -> GuidanceSeedView {
        GuidanceSeedView {
            cluster_id: self.cluster_id@,
            category: self.category@,
            representative_title: self.representative_title@,
            representative_message: self.representative_message@,
            notes: text::views(self.notes@),
        }
    }
}

/// The identifier of a cluster: it depends on the category and the title of the
/// cluster's first report, whatever the title's case.
pub open spec fn cluster_id_of(category: Seq<char>, title: Seq<char>) -> Seq<char> {
    digest::id_of(seq![category, text::lowercase(title)])
}

/// The identifier of a cluster.
pub fn cluster_id_for(category: &str, representative_title: &str) -> (id: String)
    ensures
        id@ == cluster_id_of(category@, representative_title@),
{
    let mut parts: Vec<String> = Vec::new();
    parts.push(category.to_owned());
    parts.push(text::to_lower(representative_title));
    proof {
        assert(text::views(parts@) =~= seq![category@, text::lowercase(representative_title@)]);
    }
    digest::short_id(&parts)
}

/// The categories of reports.
pub open spec fn categories_of(rows: Seq<FpRowView>) -> Seq<Seq<char>> {
    Seq::new(rows.len(), |i: int| rows[i].category)
}

/// The reports of one category.
pub open spec fn in_category(rows: Seq<FpRowView>, category: Seq<char>) -> Seq<FpRowView>
    decreases rows.len(),
{
    if rows.len() == 0 {
        Seq::empty()
    } else if rows.last().category == category {
        in_category(rows.drop_last(), category).push(rows.last())
    } else {
        in_category(rows.drop_last(), category)
    }
}

/// The text by which reports are compared: the title, a space and the message.
pub open spec fn texts_of(rows: Seq<FpRowView>) -> Seq<Seq<char>> {
    Seq::new(rows.len(), |i: int| rows[i].title + " "@ + rows[i].message)
}

/// The notes of the reports of a cluster.
pub open spec fn notes_of(group: Seq<FpRowView>, cluster: Seq<usize>) -> Seq<Seq<char>> {
    Seq::new(cluster.len(), |k: int| group[cluster[k] as int].note)
}

/// The seed of a cluster.
pub open spec fn seed_of(category: Seq<char>, group: Seq<FpRowView>, cluster: Seq<usize>) -> GuidanceSeedView {
    let first = group[cluster[0] as int];
    GuidanceSeedView {
        cluster_id: cluster_id_of(category, first.title),
        category,
        representative_title: first.title,
        representative_message: first.message,
        notes: notes_of(group, cluster),
    }
}

/// The seeds of the clusters that have enough reports.
pub open spec fn seeds_in(
    category: Seq<char>,
    group: Seq<FpRowView>,
    clusters: Seq<Seq<usize>>,
) -> Seq<GuidanceSeedView>
    decreases clusters.len(),
{
    if clusters.len() == 0 {
        Seq::empty()
    } else if clusters.last().len() >= MIN_CLUSTER_MEMBERS {
        seeds_in(category, group, clusters.drop_last()).push(
            seed_of(category, group, clusters.last()),
        )
    } else {
        seeds_in(category, group, clusters.drop_last())
    }
}

/// The seeds of reports in one category.
pub open spec fn seeds_for(rows: Seq<FpRowView>, category: Seq<char>) -> Seq<GuidanceSeedView> {
    let group = in_category(rows, category);
    seeds_in(category, group, clusters::clusters_of(texts_of(group), group.len()))
}

/// The seeds of reports in each of some categories.
pub open spec fn seeds_over(rows: Seq<FpRowView>, categories: Seq<Seq<char>>) -> Seq<
    GuidanceSeedView,
>
    decreases categories.len(),
{
    if categories.len() == 0 {
        Seq::empty()
    } else {
        seeds_over(rows, categories.drop_last()) + seeds_for(rows, categories.last())
    }
}

/// The seeds of reports, category by category in the order in which the reports
/// bring the categories up.
pub open spec fn mined(rows: Seq<FpRowView>) -> Seq<GuidanceSeedView> {
    seeds_over(rows, text::distinct_of(categories_of(rows)))
}

fn rows_in_category(rows: &Vec<FpFeedbackRow>, category: &str) -> (group: Vec<FpFeedbackRow>)
    ensures
        text::views(group@) == in_category(text::views(rows@), category@),
{
    let ghost all = text::views(rows@);
    let mut group: Vec<FpFeedbackRow> = Vec::new();
    proof {
        assert(text::views(group@) =~= Seq::empty());
    }
    let mut i: usize = 0;
    while i < rows.len()
        invariant
            0 <= i <= rows@.len(),
            all == text::views(rows@),
            text::views(group@) == in_category(all.take(i as int), category@),
        decreases rows.len() - i,
    {
        proof {
            assert(all.take(i + 1).drop_last() =~= all.take(i as int));
            assert(all.take(i + 1).last() == rows@[i as int]@);
        }
        if text::same(rows[i].category.as_str(), category) {
            let row = FpFeedbackRow {
                category: rows[i].category.clone(),
                rule_id_or_aspect: rows[i].rule_id_or_aspect.clone(),
                title: rows[i].title.clone(),
                message: rows[i].message.clone(),
                note: rows[i].note.clone(),
            };
            proof {
                text::lemma_views_push(group@, row);
            }
            group.push(row);
        }
        i += 1;
    }
    proof {
        assert(all.take(all.len() as int) =~= all);
    }
    group
}

fn row_texts(rows: &Vec<FpFeedbackRow>) -> (texts: Vec<String>)
    ensures
        text::views(texts@) == texts_of(text::views(rows@)),
{
    let ghost all = texts_of(text::views(rows@));
    let mut texts: Vec<String> = Vec::new();
    let mut i: usize = 0;
    while i < rows.len()
        invariant
            0 <= i <= rows@.len(),
            all == texts_of(text::views(rows@)),
            texts@.len() == i,
            forall|j: int| 0 <= j < i ==> (#[trigger] texts@[j])@ == all[j],
        decreases rows.len() - i,
    {
        texts.push(text::concat3(rows[i].title.as_str(), " ", rows[i].message.as_str()));
        i += 1;
    }
    proof {
        assert(text::views(texts@) =~= all);
    }
    texts
}

fn row_categories(rows: &Vec<FpFeedbackRow>) -> (categories: Vec<String>)
    ensures
        text::views(categories@) == categories_of(text::views(rows@)),
{
    let ghost all = categories_of(text::views(rows@));
    let mut categories: Vec<String> = Vec::new();
    let mut i: usize = 0;
    while i < rows.len()
        invariant
            0 <= i <= rows@.len(),
            all == categories_of(text::views(rows@)),
            categories@.len() == i,
            forall|j: int| 0 <= j < i ==> (#[trigger] categories@[j])@ == all[j],
        decreases rows.len() - i,
    {
        categories.push(rows[i].category.clone());
        i += 1;
    }
    proof {
        assert(text::views(categories@) =~= all);
    }
    categories
}

fn seed_for_cluster(category: &str, group: &Vec<FpFeedbackRow>, cluster: &Vec<usize>) -> (seed:
    NegativeGuidanceSeed)
    requires
        cluster@.len() > 0,
        forall|k: int| 0 <= k < cluster@.len() ==> (#[trigger] cluster@[k]) < group@.len(),
    ensures
        seed@ == seed_of(category@, text::views(group@), cluster@),
{
    let ghost rows = text::views(group@);
    let mut notes: Vec<String> = Vec::new();
    let mut k: usize = 0;
    while k < cluster.len()
        invariant
            0 <= k <= cluster@.len(),
            rows == text::views(group@),
            forall|j: int| 0 <= j < cluster@.len() ==> (#[trigger] cluster@[j]) < group@.len(),
            notes@.len() == k,
            forall|j: int| 0 <= j < k ==> (#[trigger] notes@[j])@ == notes_of(rows, cluster@)[j],
        decreases cluster.len() - k,
    {
        notes.push(group[cluster[k]].note.clone());
        k += 1;
    }
    proof {
        assert(text::views(notes@) =~= notes_of(rows, cluster@));
    }
    let first: &FpFeedbackRow = &group[cluster[0]];
    NegativeGuidanceSeed {
        cluster_id: cluster_id_for(category, first.title.as_str()),
        category: category.to_owned(),
        representative_title: first.title.clone(),
        representative_message: first.message.clone(),
        notes,
    }
}

fn mine_category(rows: &Vec<FpFeedbackRow>, category: &str, seeds: &mut Vec<NegativeGuidanceSeed>)
    ensures
        text::views(final(seeds)@) == text::views(old(seeds)@) + seeds_for(
            text::views(rows@),
            category@,
        ),
{
    let ghost before = text::views(seeds@);
    let group: Vec<FpFeedbackRow> = rows_in_category(rows, category);
    let texts: Vec<String> = row_texts(&group);
    let clusters: Vec<Vec<usize>> = clusters::cluster_texts(&texts);
    let ghost all = text::views(group@);
    let ghost found = text::views(clusters@);
    proof {
        assert(texts@.len() == text::views(texts@).len());
        assert(group@.len() == all.len());
        assert(before + Seq::<GuidanceSeedView>::empty() =~= before);
    }
    let mut i: usize = 0;
    while i < clusters.len()
        invariant
            0 <= i <= clusters@.len(),
            all == text::views(group@),
            found == text::views(clusters@),
            clusters::well_grouped(found, texts_of(all), all.len()),
            text::views(seeds@) == before + seeds_in(category@, all, found.take(i as int)),
        decreases clusters.len() - i,
    {
        proof {
            assert(found.take(i + 1).drop_last() =~= found.take(i as int));
            assert(found.take(i + 1).last() == clusters@[i as int]@);
            assert(found[i as int].len() > 0);
            assert forall|k: int| 0 <= k < clusters@[i as int]@.len() implies (
            #[trigger] clusters@[i as int]@[k]) < group@.len() by {
                assert(found[i as int][k] < all.len());
            }
        }
        if clusters[i].len() >= MIN_CLUSTER_MEMBERS {
            let seed: NegativeGuidanceSeed = seed_for_cluster(category, &group, &clusters[i]);
            proof {
                text::lemma_views_push(seeds@, seed);
                assert((before + seeds_in(category@, all, found.take(i as int))).push(seed@)
                    =~= before + seeds_in(category@, all, found.take(i as int)).push(seed@));
            }
            seeds.push(seed);
        }
        i += 1;
    }
    proof {
        assert(found.take(found.len() as int) =~= found);
    }
}

/// Groups false-positive reports into seeds for negative guidance.
pub fn mine_negative_guidance(rows: Vec<FpFeedbackRow>) -> (seeds: Vec<NegativeGuidanceSeed>)
    ensures
        text::views(seeds@) == mined(text::views(rows@)),
{
    let categories: Vec<String> = text::distinct(&row_categories(&rows));
    let ghost reports = text::views(rows@);
    let ghost all = text::views(categories@);
    let mut seeds: Vec<NegativeGuidanceSeed> = Vec::new();
    proof {
        assert(text::views(seeds@) =~= Seq::empty());
    }
    let mut i: usize = 0;
    while i < categories.len()
        invariant
            0 <= i <= categories@.len(),
            reports == text::views(rows@),
            all == text::views(categories@),
            text::views(seeds@) == seeds_over(reports, all.take(i as int)),
        decreases categories.len() - i,
    {
        proof {
            assert(all.take(i + 1).drop_last() =~= all.take(i as int));
            assert(all.take(i + 1).last() == categories@[i as int]@);
        }
        mine_category(&rows, categories[i].as_str(), &mut seeds);
        i += 1;
    }
    proof {
        assert(all.take(all.len() as int) =~= all);
    }
    seeds
}

proof fn lemma_seeds_in(
    category: Seq<char>,
    group: Seq<FpRowView>,
    clusters: Seq<Seq<usize>>,
    k: int,
)
    requires
        0 <= k < seeds_in(category, group, clusters).len(),
    ensures
        seeds_in(category, group, clusters)[k].notes.len() >= MIN_CLUSTER_MEMBERS,
    decreases clusters.len(),
{
    let rest = seeds_in(category, group, clusters.drop_last());
    if k < rest.len() {
        lemma_seeds_in(category, group, clusters.drop_last(), k);
    }
}

proof fn lemma_seeds_over(rows: Seq<FpRowView>, categories: Seq<Seq<char>>, k: int)
    requires
        0 <= k < seeds_over(rows, categories).len(),
    ensures
        seeds_over(rows, categories)[k].notes.len() >= MIN_CLUSTER_MEMBERS,
    decreases categories.len(),
{
    let rest = seeds_over(rows, categories.drop_last());
    if k < rest.len() {
        lemma_seeds_over(rows, categories.drop_last(), k);
    } else {
        let group = in_category(rows, categories.last());
        lemma_seeds_in(
            categories.last(),
            group,
            clusters::clusters_of(texts_of(group), group.len()),
            k - rest.len(),
        );
    }
}

/// Every seed that is mined rests on at least three reports.
pub proof fn guidance_rests_on_three_reports(rows: Seq<FpRowView>, k: int)
    requires
        0 <= k < mined(rows).len(),
    ensures
        mined(rows)[k].notes.len() >= MIN_CLUSTER_MEMBERS,
{
    lemma_seeds_over(rows, text::distinct_of(categories_of(rows)), k);
}

/// Notes as a list, one below the other.
pub open spec fn note_lines(notes: Seq<Seq<char>>) -> Seq<Seq<char>> {
    Seq::new(notes.len(), |i: int| "- "@ + notes[i])
}

/// The prompt for a seed.
pub open spec fn guidance_prompt(seed: GuidanceSeedView) -> Seq<char> {
    text::glued(
        seq![
            "A code-review skill for category '"@,
            seed.category,
            "' keeps getting reported as a false positive on a recurring pattern. Example finding: title \""@,
            seed.representative_title,
            "\", message \""@,
            seed.representative_message,
            "\". Review authors' own stated reasons across "@,
            text::decimal_of(seed.notes.len()),
            " reports:\n"@,
            text::joined(note_lines(seed.notes), "\n"@),
            PROMPT_TASK@,
        ],
    )
}

/// What the prompt asks for.
pub const PROMPT_TASK: &'static str = "\n\nDraft exactly ONE imperative instruction line to append to this skill's instructions, in the form \"Do not flag X because Y.\" Base it on the common thread across the review authors' reasons above, not just the first one. Respond with ONLY a fenced ```text block containing that single line.";

/// Who the agent is asked to be.
pub const SYSTEM_PROMPT: &'static str = "You are a precise editor of code-review skill instructions. You write exactly one clear, specific line, not a paragraph.";

/// The request for a seed.
pub open spec fn guidance_request(
    seed: GuidanceSeedView,
    model: Seq<char>,
    max_turns: u32,
    cwd: Seq<char>,
) -> RequestView {
    RequestView {
        prompt: guidance_prompt(seed),
        system_prompt: SYSTEM_PROMPT@,
        allowed_tools: Seq::empty(),
        max_turns,
        model,
        cwd,
    }
}

fn notes_list(notes: &Vec<String>) -> (list: String)
    ensures
        list@ == text::joined(note_lines(text::views(notes@)), "\n"@),
{
    let ghost all = note_lines(text::views(notes@));
    let mut lines: Vec<String> = Vec::new();
    let mut i: usize = 0;
    while i < notes.len()
        invariant
            0 <= i <= notes@.len(),
            all == note_lines(text::views(notes@)),
            lines@.len() == i,
            forall|j: int| 0 <= j < i ==> (#[trigger] lines@[j])@ == all[j],
        decreases notes.len() - i,
    {
        lines.push(text::concat2("- ", notes[i].as_str()));
        i += 1;
    }
    proof {
        assert(text::views(lines@) =~= all);
    }
    text::join(&lines, "\n")
}

fn build_prompt(seed: &NegativeGuidanceSeed) -> (prompt: String)
    ensures
        prompt@ == guidance_prompt(seed@),
{
    let notes: String = notes_list(&seed.notes);
    let count: String = text::decimal(seed.notes.len() as u64);
    let parts: [&str; 11] = [
        "A code-review skill for category '",
        seed.category.as_str(),
        "' keeps getting reported as a false positive on a recurring pattern. Example finding: title \"",
        seed.representative_title.as_str(),
        "\", message \"",
        seed.representative_message.as_str(),
        "\". Review authors' own stated reasons across ",
        count.as_str(),
        " reports:\n",
        notes.as_str(),
        PROMPT_TASK,
    ];
    proof {
        assert(text::views(seed.notes@).len() == seed.notes@.len());
        assert(text::views(parts@) =~= seq![
            "A code-review skill for category '"@,
            seed.category@,
            "' keeps getting reported as a false positive on a recurring pattern. Example finding: title \""@,
            seed.representative_title@,
            "\", message \""@,
            seed.representative_message@,
            "\". Review authors' own stated reasons across "@,
            count@,
            " reports:\n"@,
            notes@,
            PROMPT_TASK@,
        ]);
    }
    text::glue(&parts)
}

/// The line that a reply drafts, if there is a reply and it has a fenced block.
pub open spec fn drafted_line(reply: Result<InvokeResult, AgentError>) -> Option<Seq<char>> {
    match reply {
        Ok(result) => match agents::fenced_block(result.final_text@) {
            Some(block) => Some(text::trimmed(block)),
            None => None,
        },
        Err(_) => None,
    }
}

/// What a reply used.
pub open spec fn usage_of(reply: Result<InvokeResult, AgentError>) -> Usage {
    match reply {
        Ok(result) => result.usage,
        Err(_) => Usage::none(),
    }
}

/// The line that a reply drafts, and what the reply used.
pub fn line_of_reply(reply: &Result<InvokeResult, AgentError>) -> (drafted: (Option<String>, Usage))
    ensures
        text::optional(drafted.0) == drafted_line(*reply),
        drafted.1 == usage_of(*reply),
{
    match reply {
        Ok(result) => {
            let line: Option<String> = match agents::extract_last_fenced_block(
                result.final_text.as_str(),
            ) {
                Some(block) => Some(text::trim(block).to_owned()),
                None => None,
            };
            (line, result.usage)
        },
        Err(_) => (None, Usage::default()),
    }
}

/// Has one line of guidance drafted for a seed. There is none where the backend
/// does not answer, or answers without a fenced block.
pub fn draft_negative_guidance<B: AgentBackend>(
    backend: &B,
    seed: &NegativeGuidanceSeed,
    model: &str,
    max_turns: u32,
    cwd: &str,
) -> (drafted: (Option<String>, Usage))
    ensures
        exists|reply: Result<InvokeResult, AgentError>| #[trigger]
            agents::answered(backend, guidance_request(seed@, model@, max_turns, cwd@), reply)
                && text::optional(drafted.0) == drafted_line(reply) && drafted.1 == usage_of(
                reply,
            ),
{
    let no_tools: Vec<String> = Vec::new();
    let request = InvokeRequest {
        prompt: build_prompt(seed),
        system_prompt: SYSTEM_PROMPT.to_owned(),
        allowed_tools: no_tools,
        max_turns,
        model: model.to_owned(),
        cwd: cwd.to_owned(),
    };
    proof {
        assert(text::views(request.allowed_tools@) =~= Seq::empty());
        assert(request@ == guidance_request(seed@, model@, max_turns, cwd@));
    }
    let reply: Result<InvokeResult, AgentError> = agents::ask(backend, &request);
    let drafted: (Option<String>, Usage) = line_of_reply(&reply);
    proof {
        assert(agents::answered(
            backend,
            guidance_request(seed@, model@, max_turns, cwd@),
            reply,
        ));
    }
    drafted
}

/// What stands in a proposal without a drafted line.
pub const NOT_DRAFTED: &'static str = "(drafting skipped or failed — no agent backend available)";

/// A proposal as a document.
pub open spec fn proposal_of(seed: GuidanceSeedView, line: Seq<char>) -> Seq<char> {
    text::glued(
        seq![
            "# Negative-guidance proposal "@,
            seed.cluster_id,
            "\n\ncategory: "@,
            seed.category,
            "\nsource: fp-feedback\nmembers: "@,
            text::decimal_of(seed.notes.len()),
            "\n\n## Representative finding\n\ntitle: "@,
            seed.representative_title,
            "\nmessage: "@,
            seed.representative_message,
            "\n\n## Review notes\n\n"@,
            text::joined(note_lines(seed.notes), "\n"@),
            "\n\n## Drafted instruction line\n\n"@,
            line,
            "\n"@,
        ],
    )
}

/// A proposal as a document: the seed, and the line drafted for it if there is
/// one.
pub fn proposal_text(seed: &NegativeGuidanceSeed, drafted_line: Option<&str>) -> (body: String)
    ensures
        body@ == proposal_of(
            seed@,
            match drafted_line {
                Some(line) => line@,
                None => NOT_DRAFTED@,
            },
        ),
{
    let notes: String = notes_list(&seed.notes);
    let count: String = text::decimal(seed.notes.len() as u64);
    let line: &str = match drafted_line {
        Some(line) => line,
        None => NOT_DRAFTED,
    };
    let parts: [&str; 15] = [
        "# Negative-guidance proposal ",
        seed.cluster_id.as_str(),
        "\n\ncategory: ",
        seed.category.as_str(),
        "\nsource: fp-feedback\nmembers: ",
        count.as_str(),
        "\n\n## Representative finding\n\ntitle: ",
        seed.representative_title.as_str(),
        "\nmessage: ",
        seed.representative_message.as_str(),
        "\n\n## Review notes\n\n",
        notes.as_str(),
        "\n\n## Drafted instruction line\n\n",
        line,
        "\n",
    ];
    proof {
        assert(text::views(seed.notes@).len() == seed.notes@.len());
        assert(text::views(parts@) =~= seq![
            "# Negative-guidance proposal "@,
            seed.cluster_id@,
            "\n\ncategory: "@,
            seed.category@,
            "\nsource: fp-feedback\nmembers: "@,
            count@,
            "\n\n## Representative finding\n\ntitle: "@,
            seed.representative_title@,
            "\nmessage: "@,
            seed.representative_message@,
            "\n\n## Review notes\n\n"@,
            notes@,
            "\n\n## Drafted instruction line\n\n"@,
            line@,
            "\n"@,
        ]);
    }
    text::glue(&parts)
}

/// The reports of a category are mined together, in order, by their titles and
/// messages.
pub proof fn categories_are_mined_apart(rows: Seq<FpRowView>, category: Seq<char>)
    ensures
        in_category(rows, category) == rows.filter(|r: FpRowView| r.category == category),
        texts_of(rows) == rows.map_values(|r: FpRowView| r.title + " "@ + r.message),
    decreases rows.len(),
{
    reveal(Seq::filter);
    if rows.len() > 0 {
        categories_are_mined_apart(rows.drop_last(), category);
    }
    assert(texts_of(rows) =~= rows.map_values(|r: FpRowView| r.title + " "@ + r.message));
}

/// A cluster of three reports or more becomes a seed, and no other does: the title
/// and the message of its first report, and the notes of all of them, in order.
pub proof fn three_reports_become_a_seed(
    category: Seq<char>,
    group: Seq<FpRowView>,
    clusters: Seq<Seq<usize>>,
    cluster: Seq<usize>,
)
    ensures
        ({
            let (was, is) = (
                seeds_in(category, group, clusters),
                seeds_in(category, group, clusters.push(cluster)),
            );
            let first = group[cluster[0] as int];
            &&& cluster.len() < 3 ==> is == was
            &&& cluster.len() >= 3 ==> is.len() == was.len() + 1 && is.drop_last() == was
                && is.last().category == category && is.last().representative_title == first.title
                && is.last().representative_message == first.message && is.last().notes.len()
                == cluster.len() && is.last().cluster_id == digest::id_of(
                seq![category, text::lowercase(first.title)],
            ) && forall|k: int|
                0 <= k < cluster.len() ==> #[trigger] is.last().notes[k]
                    == group[cluster[k] as int].note
        }),
        seeds_in(category, group, Seq::empty()).len() == 0,
{
    assert(clusters.push(cluster).drop_last() =~= clusters);
    let was = seeds_in(category, group, clusters);
    assert(was.push(seed_of(category, group, cluster)).drop_last() =~= was);
}

/// The drafted line is the trimmed content of the last fenced block of a reply, at
/// the price of the call; a call that failed gives nothing and costs nothing.
pub proof fn lines_are_the_last_fenced_block(reply: Result<InvokeResult, AgentError>)
    ensures
        reply is Err ==> drafted_line(reply) is None && usage_of(reply).input_tokens == 0
            && usage_of(reply).output_tokens == 0,
        reply matches Ok(r) ==> usage_of(reply) == r.usage && (agents::fenced_block(r.final_text@)
            matches Some(b) ==> drafted_line(reply) == Some(text::trimmed(b))) && (
        agents::fenced_block(r.final_text@) is None ==> drafted_line(reply) is None),
{
}

/// A line is asked for without tools, of the model, in the turns and in the place
/// that were given.
pub proof fn lines_are_asked_for_without_tools(
    seed: GuidanceSeedView,
    model: Seq<char>,
    max_turns: u32,
    cwd: Seq<char>,
)
    ensures
        ({
            let r = guidance_request(seed, model, max_turns, cwd);
            r.allowed_tools.len() == 0 && r.model == model && r.max_turns == max_turns && r.cwd
                == cwd
        }),
{
}

/// Notes are listed behind a dash, each on its own line.
pub proof fn notes_are_listed(notes: Seq<Seq<char>>, i: int)
    requires
        0 <= i < notes.len(),
    ensures
        note_lines(notes).len() == notes.len(),
        note_lines(notes)[i] == "- "@ + notes[i],
{
}

/// A proposal names its cluster and its category, counts its reports, tells the
/// finding and the notes, and holds the line.
pub proof fn proposals_tell_what_they_rest_on(seed: GuidanceSeedView, line: Seq<char>)
    ensures
        ({
            let p = proposal_of(seed, line);
            &&& text::has(p, "# Negative-guidance proposal "@ + seed.cluster_id)
            &&& text::has(p, "\n\ncategory: "@ + seed.category)
            &&& text::has(
                p,
                "\nsource: fp-feedback\nmembers: "@ + text::decimal_of(seed.notes.len()),
            )
            &&& text::has(
                p,
                "\n\n## Representative finding\n\ntitle: "@ + seed.representative_title,
            )
            &&& text::has(p, "\nmessage: "@ + seed.representative_message)
            &&& text::has(
                p,
                "\n\n## Review notes\n\n"@ + text::joined(note_lines(seed.notes), "\n"@),
            )
            &&& text::has(p, "\n\n## Drafted instruction line\n\n"@ + line)
        }),
{
    let parts = seq![
        "# Negative-guidance proposal "@,
        seed.cluster_id,
        "\n\ncategory: "@,
        seed.category,
        "\nsource: fp-feedback\nmembers: "@,
        text::decimal_of(seed.notes.len()),
        "\n\n## Representative finding\n\ntitle: "@,
        seed.representative_title,
        "\nmessage: "@,
        seed.representative_message,
        "\n\n## Review notes\n\n"@,
        text::joined(note_lines(seed.notes), "\n"@),
        "\n\n## Drafted instruction line\n\n"@,
        line,
        "\n"@,
    ];
    text::lemma_glued_has(parts, 0, 2);
    assert(parts.subrange(0, 2) =~= seq!["# Negative-guidance proposal "@, seed.cluster_id]);
    text::lemma_glued_few("# Negative-guidance proposal "@, seed.cluster_id, Seq::empty(), Seq::empty());
    text::lemma_glued_has(parts, 2, 4);
    assert(parts.subrange(2, 4) =~= seq!["\n\ncategory: "@, seed.category]);
    text::lemma_glued_few("\n\ncategory: "@, seed.category, Seq::empty(), Seq::empty());
    text::lemma_glued_has(parts, 4, 6);
    assert(parts.subrange(4, 6) =~= seq!["\nsource: fp-feedback\nmembers: "@, text::decimal_of(seed.notes.len())]);
    text::lemma_glued_few("\nsource: fp-feedback\nmembers: "@, text::decimal_of(seed.notes.len()), Seq::empty(), Seq::empty());
    text::lemma_glued_has(parts, 6, 8);
    assert(parts.subrange(6, 8) =~= seq!["\n\n## Representative finding\n\ntitle: "@, seed.representative_title]);
    text::lemma_glued_few("\n\n## Representative finding\n\ntitle: "@, seed.representative_title, Seq::empty(), Seq::empty());
    text::lemma_glued_has(parts, 8, 10);
    assert(parts.subrange(8, 10) =~= seq!["\nmessage: "@, seed.representative_message]);
    text::lemma_glued_few("\nmessage: "@, seed.representative_message, Seq::empty(), Seq::empty());
    text::lemma_glued_has(parts, 10, 12);
    assert(parts.subrange(10, 12) =~= seq!["\n\n## Review notes\n\n"@, text::joined(note_lines(seed.notes), "\n"@)]);
    text::lemma_glued_few("\n\n## Review notes\n\n"@, text::joined(note_lines(seed.notes), "\n"@), Seq::empty(), Seq::empty());
    text::lemma_glued_has(parts, 12, 14);
    assert(parts.subrange(12, 14) =~= seq!["\n\n## Drafted instruction line\n\n"@, line]);
    text::lemma_glued_few("\n\n## Drafted instruction line\n\n"@, line, Seq::empty(), Seq::empty());
}

/// A line is asked for with the finding and all the notes.
pub proof fn lines_are_asked_for_with_the_notes(seed: GuidanceSeedView)
    ensures
        text::has(guidance_prompt(seed), "\", message \""@ + seed.representative_message),
        text::has(guidance_prompt(seed), seed.representative_title + "\", message \""@),
        text::has(
            guidance_prompt(seed),
            text::decimal_of(seed.notes.len()) + " reports:\n"@ + text::joined(
                note_lines(seed.notes),
                "\n"@,
            ),
        ),
        text::has(
            guidance_prompt(seed),
            "A code-review skill for category '"@ + seed.category,
        ),
{
    let parts = seq![
        "A code-review skill for category '"@,
        seed.category,
        "' keeps getting reported as a false positive on a recurring pattern. Example finding: title \""@,
        seed.representative_title,
        "\", message \""@,
        seed.representative_message,
        "\". Review authors' own stated reasons across "@,
        text::decimal_of(seed.notes.len()),
        " reports:\n"@,
        text::joined(note_lines(seed.notes), "\n"@),
        PROMPT_TASK@,
    ];
    text::lemma_glued_has(parts, 4, 6);
    assert(parts.subrange(4, 6) =~= seq!["\", message \""@, seed.representative_message]);
    text::lemma_glued_few("\", message \""@, seed.representative_message, Seq::empty(), Seq::empty());
    text::lemma_glued_has(parts, 3, 5);
    assert(parts.subrange(3, 5) =~= seq![seed.representative_title, "\", message \""@]);
    text::lemma_glued_few(seed.representative_title, "\", message \""@, Seq::empty(), Seq::empty());
    text::lemma_glued_has(parts, 7, 10);
    assert(parts.subrange(7, 10) =~= seq![text::decimal_of(seed.notes.len()), " reports:\n"@, text::joined(note_lines(seed.notes), "\n"@)]);
    text::lemma_glued_few(text::decimal_of(seed.notes.len()), " reports:\n"@, text::joined(note_lines(seed.notes), "\n"@), Seq::empty());
    text::lemma_glued_has(parts, 0, 2);
    assert(parts.subrange(0, 2) =~= seq!["A code-review skill for category '"@, seed.category]);
    text::lemma_glued_few("A code-review skill for category '"@, seed.category, Seq::empty(), Seq::empty());
}

} // verus!
