//! Mines usage conventions with an agent's help: the agent reads sampled files
//! and proposes pairs of methods, and every pair is counted in the whole
//! repository before it becomes a seed.

use vstd::prelude::*;

use crate::agents;
use crate::agents::{AgentBackend, AgentError, InvokeRequest, InvokeResult, RequestView};
use crate::digest;
use crate::rule_factory::mine::{CandidateSeed, RepresentativeSnippet, SeedView, SnippetView};
use crate::rule_factory::mine_from_code;
use crate::rule_factory::mine_from_code::{
    CallPairConvention, ConventionView, EventView, SourceFile, SourceView,
};
use crate::text;

verus! {

/// How many characters of a sampled file the prompt holds at most.
pub const MAX_SAMPLE_FILE_CHARS: usize = 4000;

/// A pair of methods that an agent proposes.
#[derive(Debug, Clone, PartialEq, Eq)]
pub struct LlmProposedConvention {
    pub call_a: String,
    pub call_b: String,
    pub rationale: String,
}

/// A source file, the package that it is in, its size, and how many packages
/// depend on that one.
#[derive(Debug, Clone)]
pub struct SizedFile {
    pub path: String,
    pub package: String,
    pub size: u64,
    pub fan_in: usize,
}

/// What a `SizedFile` says.
pub struct SizedView {
    pub path: Seq<char>,
    pub package: Seq<char>,
    pub size: u64,
    pub fan_in: usize,
}

impl View for SizedFile {
    type V = SizedView;

    open spec fn view(&self) -> SizedView {
        SizedView {
            path: self.path@,
            package: self.package@,
            size: self.size,
            fan_in: self.fan_in,
        }
    }
}

/// The largest files of packages with one more file.
pub open spec fn with_file(largest: Seq<SizedView>, file: SizedView) -> Seq<SizedView>
    decreases largest.len(),
{
    if largest.len() == 0 {
        seq![file]
    } else if largest[0].package == file.package {
        if file.size > largest[0].size {
            seq![file] + largest.drop_first()
        } else {
            largest
        }
    } else {
        seq![largest[0]] + with_file(largest.drop_first(), file)
    }
}

/// The largest file of each package, in the order in which the packages come up;
/// of equally large ones the first.
pub open spec fn largest_per_package(files: Seq<SizedView>) -> Seq<SizedView>
    decreases files.len(),
{
    if files.len() == 0 {
        Seq::empty()
    } else {
        with_file(largest_per_package(files.drop_last()), files.last())
    }
}

/// A list with one more file, in front of the first with a smaller key.
pub open spec fn ranked_with(list: Seq<(nat, SizedView)>, key: nat, file: SizedView) -> Seq<
    (nat, SizedView),
>
    decreases list.len(),
{
    if list.len() == 0 || list[0].0 < key {
        seq![(key, file)] + list
    } else {
        seq![list[0]] + ranked_with(list.drop_first(), key, file)
    }
}

/// The key by which a file is ranked.
pub open spec fn key_of(file: SizedView, by_fan_in: bool) -> nat {
    if by_fan_in {
        file.fan_in as nat
    } else {
        file.size as nat
    }
}

/// Files with the largest key first, and of equal ones as they come.
pub open spec fn ranked(files: Seq<SizedView>, by_fan_in: bool) -> Seq<(nat, SizedView)>
    decreases files.len(),
{
    if files.len() == 0 {
        Seq::empty()
    } else {
        ranked_with(
            ranked(files.drop_last(), by_fan_in),
            key_of(files.last(), by_fan_in),
            files.last(),
        )
    }
}

/// The paths of the first files of a ranking.
pub open spec fn first_paths(list: Seq<(nat, SizedView)>, max: nat) -> Seq<Seq<char>> {
    Seq::new(
        if list.len() < max {
            list.len()
        } else {
            max
        },
        |i: int| list[i].1.path,
    )
}

proof fn lemma_with_file(largest: Seq<SizedView>, file: SizedView, k: int)
    requires
        0 <= k <= largest.len(),
        forall|j: int| 0 <= j < k ==> (#[trigger] largest[j]).package != file.package,
        k < largest.len() ==> largest[k].package == file.package,
    ensures
        with_file(largest, file) == if k == largest.len() {
            largest.push(file)
        } else if file.size > largest[k].size {
            largest.update(k, file)
        } else {
            largest
        },
    decreases largest.len(),
{
    if largest.len() == 0 {
        assert(with_file(largest, file) =~= largest.push(file));
    } else if k == 0 {
        if file.size > largest[0].size {
            assert(with_file(largest, file) =~= largest.update(0, file));
        }
    } else {
        let rest = largest.drop_first();
        assert(largest[0].package != file.package);
        assert forall|j: int| 0 <= j < k - 1 implies (#[trigger] rest[j]).package
            != file.package by {
            assert(rest[j] == largest[j + 1]);
        }
        lemma_with_file(rest, file, k - 1);
        if k == largest.len() {
            assert(with_file(largest, file) =~= largest.push(file));
        } else if file.size > largest[k].size {
            assert(with_file(largest, file) =~= largest.update(k, file));
        } else {
            assert(with_file(largest, file) =~= largest);
        }
    }
}

proof fn lemma_ranked_with(list: Seq<(nat, SizedView)>, key: nat, file: SizedView, k: int)
    requires
        0 <= k <= list.len(),
        forall|j: int| 0 <= j < k ==> (#[trigger] list[j]).0 >= key,
        k < list.len() ==> list[k].0 < key,
    ensures
        ranked_with(list, key, file) == list.insert(k, (key, file)),
    decreases list.len(),
{
    if list.len() == 0 || list[0].0 < key {
        assert(ranked_with(list, key, file) =~= list.insert(0, (key, file)));
    } else {
        let rest = list.drop_first();
        assert forall|j: int| 0 <= j < k - 1 implies (#[trigger] rest[j]).0 >= key by {
            assert(rest[j] == list[j + 1]);
        }
        lemma_ranked_with(rest, key, file, k - 1);
        assert(ranked_with(list, key, file) =~= list.insert(k, (key, file)));
    }
}

fn copy_file(file: &SizedFile) -> (copy: SizedFile)
    ensures
        copy@ == file@,
{
    SizedFile {
        path: file.path.clone(),
        package: file.package.clone(),
        size: file.size,
        fan_in: file.fan_in,
    }
}

fn keep_largest(largest: &mut Vec<SizedFile>, file: &SizedFile)
    ensures
        text::views(final(largest)@) == with_file(text::views(old(largest)@), file@),
{
    let ghost before = text::views(largest@);
    let mut k: usize = 0;
    while k < largest.len() && !text::same(largest[k].package.as_str(), file.package.as_str())
        invariant
            0 <= k <= largest@.len(),
            before == text::views(largest@),
            forall|j: int| 0 <= j < k ==> (#[trigger] before[j]).package != file@.package,
        decreases largest.len() - k,
    {
        k += 1;
    }
    proof {
        lemma_with_file(before, file@, k as int);
    }
    let copy: SizedFile = copy_file(file);
    if k == largest.len() {
        proof {
            text::lemma_views_push(largest@, copy);
        }
        largest.push(copy);
    } else if file.size > largest[k].size {
        largest.set(k, copy);
        proof {
            assert(text::views(largest@) =~= before.update(k as int, file@));
        }
    }
}

fn largest_files_per_package(files: &Vec<SizedFile>) -> (largest: Vec<SizedFile>)
    ensures
        text::views(largest@) == largest_per_package(text::views(files@)),
{
    let ghost all = text::views(files@);
    let mut largest: Vec<SizedFile> = Vec::new();
    proof {
        assert(text::views(largest@) =~= Seq::empty());
    }
    let mut i: usize = 0;
    while i < files.len()
        invariant
            0 <= i <= files@.len(),
            all == text::views(files@),
            text::views(largest@) == largest_per_package(all.take(i as int)),
        decreases files.len() - i,
    {
        proof {
            assert(all.take(i + 1).drop_last() =~= all.take(i as int));
            assert(all.take(i + 1).last() == files@[i as int]@);
        }
        keep_largest(&mut largest, &files[i]);
        i += 1;
    }
    proof {
        assert(all.take(all.len() as int) =~= all);
    }
    largest
}

fn file_key(file: &SizedFile, by_fan_in: bool) -> (key: u64)
    ensures
        key == key_of(file@, by_fan_in),
{
    if by_fan_in {
        file.fan_in as u64
    } else {
        file.size
    }
}

/// Files with their keys.
pub open spec fn keyed(files: Seq<SizedView>, by_fan_in: bool) -> Seq<(nat, SizedView)> {
    Seq::new(files.len(), |i: int| (key_of(files[i], by_fan_in), files[i]))
}

fn rank_files(files: &Vec<SizedFile>, by_fan_in: bool, max_files: usize) -> (paths: Vec<String>)
    ensures
        text::views(paths@) == first_paths(
            ranked(text::views(files@), by_fan_in),
            max_files as nat,
        ),
{
    let ghost all = text::views(files@);
    let mut list: Vec<SizedFile> = Vec::new();
    proof {
        assert(keyed(text::views(list@), by_fan_in) =~= Seq::empty());
    }
    let mut i: usize = 0;
    while i < files.len()
        invariant
            0 <= i <= files@.len(),
            all == text::views(files@),
            keyed(text::views(list@), by_fan_in) == ranked(all.take(i as int), by_fan_in),
        decreases files.len() - i,
    {
        proof {
            assert(all.take(i + 1).drop_last() =~= all.take(i as int));
            assert(all.take(i + 1).last() == files@[i as int]@);
        }
        let ghost before = keyed(text::views(list@), by_fan_in);
        let key: u64 = file_key(&files[i], by_fan_in);
        let mut k: usize = 0;
        while k < list.len() && file_key(&list[k], by_fan_in) >= key
            invariant
                0 <= k <= list@.len(),
                before == keyed(text::views(list@), by_fan_in),
                forall|j: int| 0 <= j < k ==> (#[trigger] before[j]).0 >= key,
            decreases list.len() - k,
        {
            k += 1;
        }
        proof {
            lemma_ranked_with(before, key as nat, files@[i as int]@, k as int);
        }
        list.insert(k, copy_file(&files[i]));
        proof {
            assert(keyed(text::views(list@), by_fan_in) =~= before.insert(
                k as int,
                (key as nat, files@[i as int]@),
            ));
        }
        i += 1;
    }
    proof {
        assert(all.take(all.len() as int) =~= all);
    }
    let ghost order = keyed(text::views(list@), by_fan_in);
    let mut paths: Vec<String> = Vec::new();
    i = 0;
    while i < list.len() && i < max_files
        invariant
            0 <= i <= list@.len(),
            i <= max_files,
            order == keyed(text::views(list@), by_fan_in),
            paths@.len() == i,
            forall|j: int|
                0 <= j < i ==> (#[trigger] paths@[j])@ == first_paths(order, max_files as nat)[j],
        decreases list.len() - i,
    {
        paths.push(list[i].path.clone());
        i += 1;
    }
    proof {
        assert(text::views(paths@) =~= first_paths(order, max_files as nat));
    }
    paths
}

/// The files to sample where the packages' dependencies are known: the largest
/// file of each package, those of the packages that the most packages depend on
/// first.
pub fn top_files_by_package_fan_in(files: &Vec<SizedFile>, max_files: usize) -> (paths: Vec<String>)
    ensures
        text::views(paths@) == first_paths(
            ranked(largest_per_package(text::views(files@)), true),
            max_files as nat,
        ),
{
    let largest: Vec<SizedFile> = largest_files_per_package(files);
    rank_files(&largest, true, max_files)
}

/// The files to sample where nothing is known of dependencies: the largest.
pub fn largest_files_fallback(files: &Vec<SizedFile>, max_files: usize) -> (paths: Vec<String>)
    ensures
        text::views(paths@) == first_paths(
            ranked(text::views(files@), false),
            max_files as nat,
        ),
{
    rank_files(files, false, max_files)
}

/// The files of one import graph.
pub type GraphFiles = Vec<SizedFile>;

/// The files to sample: those of the packages that the most others import, in the
/// first import graph that has any, and the largest without such a graph.
pub open spec fn sampled(graphs: Seq<GraphFiles>, files: Seq<SizedView>, max: nat) -> Seq<Seq<char>>
    decreases graphs.len(),
{
    if graphs.len() == 0 {
        first_paths(ranked(files, false), max)
    } else {
        let top = first_paths(ranked(largest_per_package(text::views(graphs[0]@)), true), max);
        if top.len() > 0 {
            top
        } else {
            sampled(graphs.drop_first(), files, max)
        }
    }
}

/// The files to sample, given the files of each import graph that has edges, and
/// all source files.
pub fn select_representative_files(
    graphs: &Vec<GraphFiles>,
    files: &Vec<SizedFile>,
    max_files: usize,
) -> (paths: Vec<String>)
    ensures
        text::views(paths@) == sampled(graphs@, text::views(files@), max_files as nat),
{
    let ghost all = text::views(files@);
    let mut i: usize = 0;
    proof {
        assert(graphs@.skip(0) =~= graphs@);
    }
    while i < graphs.len()
        invariant
            0 <= i <= graphs@.len(),
            all == text::views(files@),
            sampled(graphs@, all, max_files as nat) == sampled(
                graphs@.skip(i as int),
                all,
                max_files as nat,
            ),
        decreases graphs.len() - i,
    {
        let top: Vec<String> = top_files_by_package_fan_in(&graphs[i], max_files);
        proof {
            assert(graphs@.skip(i as int)[0] == graphs@[i as int]);
            assert(graphs@.skip(i as int).drop_first() =~= graphs@.skip(i + 1));
            assert(text::views(top@).len() == top@.len());
        }
        if top.len() > 0 {
            return top;
        }
        i += 1;
    }
    largest_files_fallback(files, max_files)
}

/// What the prompt asks for.
pub const PROMPT_TASK: &'static str = "You are looking for \"must-call-pair\" conventions in a codebase — cases where a call to method A is almost always followed nearby by a call to method B (e.g. a Lock() paired with an Unlock(), a Query(...) paired with a .Close() on its result). Read the sampled files below and propose any such conventions you notice, based on the method names and context (not just brute counting — that mechanical check happens separately afterward). Only propose pairs you have real reason to believe are a genuine, repo-wide convention worth enforcing, not a one-off. Respond with ONLY a fenced ```json block containing a JSON array, each element shaped {\"call_a\": \"MethodName\", \"call_b\": \"OtherMethodName\", \"rationale\": \"one sentence\"}. An empty array [] is a completely valid answer if you don't see a real convention.\n\n";

/// Who the agent is asked to be.
pub const SYSTEM_PROMPT: &'static str = "You are a careful static-analysis assistant. You only propose a convention when the sampled code gives you real reason to believe it, and you say so plainly with an empty array when you don't see one.";

/// What the prompt says of the files, each under its path.
pub open spec fn sample_texts(samples: Seq<SourceView>) -> Seq<Seq<char>> {
    Seq::new(
        samples.len(),
        |i: int|
            text::glued(
                seq!["--- "@, samples[i].path, " ---\n"@, text::head_of(samples[i].content, MAX_SAMPLE_FILE_CHARS as nat), "\n"@],
            ),
    )
}

/// The request for sampled files.
pub open spec fn propose_request(
    samples: Seq<SourceView>,
    model: Seq<char>,
    max_turns: u32,
    repo_root: Seq<char>,
) -> RequestView {
    RequestView {
        prompt: PROMPT_TASK@ + text::joined(sample_texts(samples), "\n"@),
        system_prompt: SYSTEM_PROMPT@,
        allowed_tools: Seq::empty(),
        max_turns,
        model,
        cwd: repo_root,
    }
}

fn build_propose_prompt(samples: &Vec<SourceFile>) -> (prompt: String)
    ensures
        prompt@ == PROMPT_TASK@ + text::joined(sample_texts(text::views(samples@)), "\n"@),
{
    let ghost all = sample_texts(text::views(samples@));
    let mut texts: Vec<String> = Vec::new();
    let mut i: usize = 0;
    while i < samples.len()
        invariant
            0 <= i <= samples@.len(),
            all == sample_texts(text::views(samples@)),
            texts@.len() == i,
            forall|j: int| 0 <= j < i ==> (#[trigger] texts@[j])@ == all[j],
        decreases samples.len() - i,
    {
        let parts: [&str; 5] = [
            "--- ",
            samples[i].path.as_str(),
            " ---\n",
            text::head(samples[i].content.as_str(), MAX_SAMPLE_FILE_CHARS),
            "\n",
        ];
        proof {
            assert(text::views(parts@) =~= seq![
                "--- "@,
                samples@[i as int].path@,
                " ---\n"@,
                text::head_of(samples@[i as int].content@, MAX_SAMPLE_FILE_CHARS as nat),
                "\n"@,
            ]);
        }
        texts.push(text::glue(&parts));
        i += 1;
    }
    proof {
        assert(text::views(texts@) =~= all);
    }
    let joined: String = text::join(&texts, "\n");
    text::concat2(PROMPT_TASK, joined.as_str())
}

/// The pairs that are read in a reply, if any.
pub open spec fn proposals_of(read: Option<Vec<LlmProposedConvention>>) -> Seq<
    LlmProposedConvention,
> {
    match read {
        Some(proposals) => proposals@,
        None => Seq::empty(),
    }
}

/// The reader makes these pairs of the fenced block of a reply. There are none
/// without a reply or a block.
pub open spec fn pairs_read<P: Fn(&str) -> Option<Vec<LlmProposedConvention>>>(
    read: &P,
    reply: Result<InvokeResult, AgentError>,
    proposals: Option<Vec<LlmProposedConvention>>,
) -> bool {
    agents::read_by(read, agents::block_of(reply), proposals)
}

/// Pairs that can come of asking an agent about sampled files. Without samples
/// it is not asked.
pub open spec fn can_be_proposed<
    B: AgentBackend,
    P: Fn(&str) -> Option<Vec<LlmProposedConvention>>,
>(
    backend: &B,
    read: &P,
    samples: Seq<SourceView>,
    model: Seq<char>,
    max_turns: u32,
    repo_root: Seq<char>,
    proposals: Seq<LlmProposedConvention>,
) -> bool {
    if samples.len() == 0 {
        proposals.len() == 0
    } else {
        exists|
            reply: Result<InvokeResult, AgentError>,
            found: Option<Vec<LlmProposedConvention>>,
        | #[trigger]
            agents::answered(
                backend,
                propose_request(samples, model, max_turns, repo_root),
                reply,
            ) && #[trigger] pairs_read(read, reply, found) && proposals == proposals_of(found)
    }
}

/// Asks an agent for pairs of methods, given sampled files. `read` reads the
/// pairs out of the agent's fenced block, if it holds them. Without an answer,
/// or without pairs in it, there are none.
pub fn propose_conventions_via_llm<
    B: AgentBackend,
    P: Fn(&str) -> Option<Vec<LlmProposedConvention>>,
>(
    backend: &B,
    read: &P,
    samples: &Vec<SourceFile>,
    model: &str,
    max_turns: u32,
    repo_root: &str,
) -> (proposals: Vec<LlmProposedConvention>)
    requires
        forall|block: &str| call_requires(read, (block,)),
    ensures
        can_be_proposed(
            backend,
            read,
            text::views(samples@),
            model@,
            max_turns,
            repo_root@,
            proposals@,
        ),
{
    proof {
        assert(text::views(samples@).len() == samples@.len());
    }
    if samples.len() == 0 {
        return Vec::new();
    }
    let no_tools: Vec<String> = Vec::new();
    let request = InvokeRequest {
        prompt: build_propose_prompt(samples),
        system_prompt: SYSTEM_PROMPT.to_owned(),
        allowed_tools: no_tools,
        max_turns,
        model: model.to_owned(),
        cwd: repo_root.to_owned(),
    };
    proof {
        assert(text::views(request.allowed_tools@) =~= Seq::empty());
        assert(request@ == propose_request(text::views(samples@), model@, max_turns, repo_root@));
    }
    let reply: Result<InvokeResult, AgentError> = agents::ask(backend, &request);
    let found: Option<Vec<LlmProposedConvention>> = agents::read_reply(read, &reply);
    let ghost seen = found;
    proof {
        assert(agents::answered(
            backend,
            propose_request(text::views(samples@), model@, max_turns, repo_root@),
            reply,
        ));
        assert(pairs_read(read, reply, seen));
    }
    match found {
        Some(proposals) => proposals,
        None => Vec::new(),
    }
}

/// The proposed pairs that hold in the events of a repository: with enough calls
/// of the one method, of which a large enough share is accompanied by the other.
pub open spec fn verified(
    events: Seq<EventView>,
    proposals: Seq<LlmProposedConvention>,
    min_occurrences: nat,
    min_share: nat,
) -> Seq<ConventionView>
    decreases proposals.len(),
{
    if proposals.len() == 0 {
        Seq::empty()
    } else {
        let rest = verified(events, proposals.drop_last(), min_occurrences, min_share);
        let pair = mine_from_code::pair_in(
            events,
            proposals.last().call_a@,
            proposals.last().call_b@,
        );
        if pair.occurrences_of_a >= min_occurrences && pair.holds_for(min_share) {
            rest.push(pair)
        } else {
            rest
        }
    }
}

/// The proposed pairs that hold in the files of a repository. The share is in
/// millionths.
pub fn verify_proposed_conventions(
    files: &Vec<SourceFile>,
    proposals: &Vec<LlmProposedConvention>,
    min_occurrences: usize,
    min_share: u32,
) -> (found: Vec<CallPairConvention>)
    ensures
        text::views(found@) == verified(
            mine_from_code::events_of(text::views(files@)),
            proposals@,
            min_occurrences as nat,
            min_share as nat,
        ),
        all_called(found@),
{
    let ghost events = mine_from_code::events_of(text::views(files@));
    let ghost min = min_occurrences as nat;
    let ghost share = min_share as nat;
    let mut found: Vec<CallPairConvention> = Vec::new();
    proof {
        assert(text::views(found@) =~= Seq::empty());
    }
    let mut i: usize = 0;
    while i < proposals.len()
        invariant
            0 <= i <= proposals@.len(),
            events == mine_from_code::events_of(text::views(files@)),
            min == min_occurrences as nat,
            share == min_share as nat,
            text::views(found@) == verified(events, proposals@.take(i as int), min, share),
            all_called(found@),
        decreases proposals.len() - i,
    {
        proof {
            assert(proposals@.take(i + 1).drop_last() =~= proposals@.take(i as int));
            assert(proposals@.take(i + 1).last() == proposals@[i as int]);
        }
        match mine_from_code::consistency_for_pair(
            files,
            proposals[i].call_a.as_str(),
            proposals[i].call_b.as_str(),
            min_occurrences,
        ) {
            Some(convention) => {
                if convention.holds(min_share) {
                    proof {
                        text::lemma_views_push(found@, convention);
                    }
                    found.push(convention);
                }
            },
            None => {},
        }
        i += 1;
    }
    proof {
        assert(proposals@.take(proposals@.len() as int) =~= proposals@);
    }
    found
}

/// Every convention has calls.
pub open spec fn all_called(conventions: Seq<CallPairConvention>) -> bool {
    forall|i: int|
        0 <= i < conventions.len() ==> (#[trigger] conventions[i]).occurrences_of_a > 0
}

/// A share in a hundred, rounded to the nearest, and to an even number half way
/// between two.
pub open spec fn rounded_percent(part: nat, whole: nat) -> nat {
    let percent = part * 100 / whole;
    let rest = part * 100 % whole;
    if rest * 2 > whole || rest * 2 == whole && percent % 2 == 1 {
        percent + 1
    } else {
        percent
    }
}

fn percent_of(part: usize, whole: usize) -> (percent: u128)
    requires
        whole > 0,
    ensures
        percent == rounded_percent(part as nat, whole as nat),
{
    let hundredfold: u128 = part as u128 * 100;
    let all: u128 = whole as u128;
    let percent: u128 = hundredfold / all;
    let rest: u128 = hundredfold % all;
    proof {
        assert(percent <= hundredfold) by (nonlinear_arith)
            requires
                all >= 1,
                percent == hundredfold / all,
        ;
        assert(hundredfold as nat / all as nat == percent as nat);
        assert(hundredfold as nat % all as nat == rest as nat);
    }
    if rest * 2 > all || (rest * 2 == all && percent % 2 == 1) {
        percent + 1
    } else {
        percent
    }
}

/// The fingerprint of a pair.
pub open spec fn pair_fingerprint(c: ConventionView) -> Seq<char> {
    text::glued(seq!["llm-pair-"@, c.call_a, "-"@, c.call_b])
}

/// The message of a seed.
pub open spec fn pair_message(c: ConventionView) -> Seq<char> {
    text::glued(
        seq![
            "Across this repo, "@,
            text::decimal_of(c.co_occurrences),
            " of "@,
            text::decimal_of(c.occurrences_of_a),
            " calls to `"@,
            c.call_a,
            "` are followed nearby by a call to `"@,
            c.call_b,
            "` ("@,
            text::decimal_of(rounded_percent(c.co_occurrences, c.occurrences_of_a)),
            "% consistency), e.g. "@,
            c.example_location,
            "."@,
        ],
    )
}

/// The seed of a convention: one member, and as its number of runs the number of
/// calls that back it.
pub open spec fn seed_of(c: ConventionView) -> SeedView {
    SeedView {
        cluster_id: digest::id_of(seq![c.call_a, c.call_b]),
        category: "correctness"@,
        rule_id_or_aspect: "llm-proposed-call-pair"@,
        member_fingerprints: seq![pair_fingerprint(c)],
        distinct_run_count: c.occurrences_of_a,
        representative_snippets: seq![
            SnippetView {
                fingerprint: pair_fingerprint(c),
                title: text::glued(
                    seq!["`"@, c.call_a, "` should be paired with `"@, c.call_b, "`"@],
                ),
                message: pair_message(c),
            },
        ],
    }
}

/// The seeds of conventions.
pub open spec fn seeds_of(conventions: Seq<ConventionView>) -> Seq<SeedView> {
    Seq::new(conventions.len(), |i: int| seed_of(conventions[i]))
}

fn message_for(convention: &CallPairConvention) -> (message: String)
    requires
        convention.occurrences_of_a > 0,
    ensures
        message@ == pair_message(convention@),
{
    let pairs: String = text::decimal(convention.co_occurrences as u64);
    let calls: String = text::decimal(convention.occurrences_of_a as u64);
    let percent: String = text::decimal_wide(
        percent_of(convention.co_occurrences, convention.occurrences_of_a),
    );
    let parts: [&str; 13] = [
        "Across this repo, ",
        pairs.as_str(),
        " of ",
        calls.as_str(),
        " calls to `",
        convention.call_a.as_str(),
        "` are followed nearby by a call to `",
        convention.call_b.as_str(),
        "` (",
        percent.as_str(),
        "% consistency), e.g. ",
        convention.example_location.as_str(),
        ".",
    ];
    proof {
        assert(text::views(parts@) =~= seq![
            "Across this repo, "@,
            pairs@,
            " of "@,
            calls@,
            " calls to `"@,
            convention.call_a@,
            "` are followed nearby by a call to `"@,
            convention.call_b@,
            "` ("@,
            percent@,
            "% consistency), e.g. "@,
            convention.example_location@,
            "."@,
        ]);
    }
    text::glue(&parts)
}

/// The seed of a convention.
pub fn verified_convention_to_seed(convention: &CallPairConvention) -> (seed: CandidateSeed)
    requires
        convention.occurrences_of_a > 0,
    ensures
        seed@ == seed_of(convention@),
{
    let mut parts: Vec<String> = Vec::new();
    parts.push(convention.call_a.clone());
    parts.push(convention.call_b.clone());
    let mark: [&str; 4] = [
        "llm-pair-",
        convention.call_a.as_str(),
        "-",
        convention.call_b.as_str(),
    ];
    let heading: [&str; 5] = [
        "`",
        convention.call_a.as_str(),
        "` should be paired with `",
        convention.call_b.as_str(),
        "`",
    ];
    proof {
        assert(text::views(parts@) =~= seq![convention.call_a@, convention.call_b@]);
        assert(text::views(mark@) =~= seq![
            "llm-pair-"@,
            convention.call_a@,
            "-"@,
            convention.call_b@,
        ]);
        assert(text::views(heading@) =~= seq![
            "`"@,
            convention.call_a@,
            "` should be paired with `"@,
            convention.call_b@,
            "`"@,
        ]);
    }
    let fingerprint: String = text::glue(&mark);
    let mut members: Vec<String> = Vec::new();
    members.push(fingerprint.clone());
    let mut snippets: Vec<RepresentativeSnippet> = Vec::new();
    snippets.push(
        RepresentativeSnippet {
            fingerprint,
            title: text::glue(&heading),
            message: message_for(convention),
        },
    );
    proof {
        assert(text::views(members@) =~= seq![pair_fingerprint(convention@)]);
        assert(text::views(snippets@) =~= seed_of(convention@).representative_snippets);
    }
    CandidateSeed {
        cluster_id: digest::short_id(&parts),
        category: "correctness".to_owned(),
        rule_id_or_aspect: "llm-proposed-call-pair".to_owned(),
        member_fingerprints: members,
        distinct_run_count: convention.occurrences_of_a,
        representative_snippets: snippets,
    }
}

/// The seeds of the proposed pairs that hold in the files of a repository.
pub fn seeds_from_proposals(
    files: &Vec<SourceFile>,
    proposals: &Vec<LlmProposedConvention>,
    min_occurrences: usize,
    min_share: u32,
) -> (seeds: Vec<CandidateSeed>)
    ensures
        text::views(seeds@) == seeds_of(
            verified(
                mine_from_code::events_of(text::views(files@)),
                proposals@,
                min_occurrences as nat,
                min_share as nat,
            ),
        ),
{
    let found: Vec<CallPairConvention> = verify_proposed_conventions(
        files,
        proposals,
        min_occurrences,
        min_share,
    );
    let ghost all = seeds_of(text::views(found@));
    let mut seeds: Vec<CandidateSeed> = Vec::new();
    let mut i: usize = 0;
    while i < found.len()
        invariant
            0 <= i <= found@.len(),
            all_called(found@),
            all == seeds_of(text::views(found@)),
            seeds@.len() == i,
            forall|j: int| 0 <= j < i ==> (#[trigger] seeds@[j])@ == all[j],
        decreases found.len() - i,
    {
        seeds.push(verified_convention_to_seed(&found[i]));
        i += 1;
    }
    proof {
        assert(text::views(seeds@) =~= all);
    }
    seeds
}

/// Asks an agent for pairs of methods, given sampled files, and makes seeds of
/// those that hold in all files; and tells how many were proposed.
pub fn mine_from_llm_patterns<
    B: AgentBackend,
    P: Fn(&str) -> Option<Vec<LlmProposedConvention>>,
>(
    backend: &B,
    read: &P,
    files: &Vec<SourceFile>,
    samples: &Vec<SourceFile>,
    model: &str,
    max_turns: u32,
    repo_root: &str,
    min_occurrences: usize,
    min_share: u32,
) -> (mined: (Vec<CandidateSeed>, usize))
    requires
        forall|block: &str| call_requires(read, (block,)),
    ensures
        exists|proposals: Seq<LlmProposedConvention>| #[trigger]
            can_be_proposed(
                backend,
                read,
                text::views(samples@),
                model@,
                max_turns,
                repo_root@,
                proposals,
            ) && mined.1 == proposals.len() && text::views(mined.0@) == seeds_of(
                verified(
                    mine_from_code::events_of(text::views(files@)),
                    proposals,
                    min_occurrences as nat,
                    min_share as nat,
                ),
            ),
{
    let proposals: Vec<LlmProposedConvention> = propose_conventions_via_llm(
        backend,
        read,
        samples,
        model,
        max_turns,
        repo_root,
    );
    let count: usize = proposals.len();
    let seeds: Vec<CandidateSeed> = seeds_from_proposals(
        files,
        &proposals,
        min_occurrences,
        min_share,
    );
    (seeds, count)
}

/// Whatever an agent proposes, only pairs that hold in the repository survive.
pub proof fn only_real_pairs_survive(
    events: Seq<EventView>,
    proposals: Seq<LlmProposedConvention>,
    min_occurrences: nat,
    min_share: nat,
    i: int,
)
    requires
        0 <= i < verified(events, proposals, min_occurrences, min_share).len(),
    ensures
        ({
            let c = verified(events, proposals, min_occurrences, min_share)[i];
            &&& c == mine_from_code::pair_in(events, c.call_a, c.call_b)
            &&& c.occurrences_of_a >= min_occurrences
            &&& c.holds_for(min_share)
        }),
    decreases proposals.len(),
{
    let rest = verified(events, proposals.drop_last(), min_occurrences, min_share);
    if i < rest.len() {
        only_real_pairs_survive(events, proposals.drop_last(), min_occurrences, min_share, i);
    }
}

/// Of every package the largest file is kept, the first of those that are as large:
/// no file of a package is larger than the one that stands for it, and a package
/// stands once.
pub proof fn the_largest_file_stands_for_its_package(files: Seq<SizedView>)
    ensures
        ({
            let kept = largest_per_package(files);
            &&& forall|i: int, j: int|
                0 <= i < j < kept.len() ==> (#[trigger] kept[i]).package != (
                #[trigger] kept[j]).package
            &&& forall|i: int| 0 <= i < kept.len() ==> files.contains(#[trigger] kept[i])
            &&& forall|k: int|
                0 <= k < files.len() ==> #[trigger] stood_for(kept, files[k])
        }),
    decreases files.len(),
{
    if files.len() > 0 {
        let rest = files.drop_last();
        the_largest_file_stands_for_its_package(rest);
        let was = largest_per_package(rest);
        let kept = largest_per_package(files);
        let f = files.last();
        lemma_with_file_here(was, f);
        assert(files[files.len() - 1] == f);
        assert forall|i: int| 0 <= i < kept.len() implies files.contains(#[trigger] kept[i]) by {
            if kept[i] != f {
                assert(was.contains(kept[i]));
                let a = choose|a: int| 0 <= a < was.len() && was[a] == kept[i];
                assert(rest.contains(was[a]));
                let b = choose|b: int| 0 <= b < rest.len() && rest[b] == was[a];
                assert(files[b] == kept[i]);
            }
        }
        assert forall|k: int| 0 <= k < files.len() implies #[trigger] stood_for(
            kept,
            files[k],
        ) by {
            if k < rest.len() {
                assert(rest[k] == files[k]);
                assert(stood_for(was, rest[k]));
            }
        }
    }
}

/// A file of the list is of the same package and no smaller.
pub open spec fn stood_for(kept: Seq<SizedView>, file: SizedView) -> bool {
    exists|i: int|
        0 <= i < kept.len() && (#[trigger] kept[i]).package == file.package && kept[i].size
            >= file.size
}

proof fn lemma_with_file_here(kept: Seq<SizedView>, f: SizedView)
    requires
        forall|i: int, j: int|
            0 <= i < j < kept.len() ==> (#[trigger] kept[i]).package != (
            #[trigger] kept[j]).package,
    ensures
        ({
            let new = with_file(kept, f);
            &&& forall|i: int, j: int|
                0 <= i < j < new.len() ==> (#[trigger] new[i]).package != (
                #[trigger] new[j]).package
            &&& forall|i: int|
                0 <= i < new.len() ==> #[trigger] new[i] == f || kept.contains(new[i])
            &&& stood_for(new, f)
            &&& forall|x: SizedView| #[trigger] stood_for(kept, x) ==> stood_for(new, x)
        }),
    decreases kept.len(),
{
    let new = with_file(kept, f);
    if kept.len() == 0 {
        assert(new[0] == f);
    } else if kept[0].package == f.package {
        if f.size > kept[0].size {
            assert(new[0] == f);
            assert forall|i: int| 0 <= i < new.len() implies #[trigger] new[i] == f
                || kept.contains(new[i]) by {
                if i > 0 {
                    assert(new[i] == kept[i]);
                }
            }
            assert forall|i: int, j: int| 0 <= i < j < new.len() implies (
            #[trigger] new[i]).package != (#[trigger] new[j]).package by {
                assert(new[j] == kept[j]);
                if i > 0 {
                    assert(new[i] == kept[i]);
                }
                assert(kept[i].package != kept[j].package);
            }
            assert forall|x: SizedView| #[trigger] stood_for(kept, x) implies stood_for(new, x) by {
                let i = choose|i: int|
                    0 <= i < kept.len() && (#[trigger] kept[i]).package == x.package
                        && kept[i].size >= x.size;
                if i > 0 {
                    assert(new[i] == kept[i]);
                }
            }
        } else {
            assert(new == kept);
            assert(kept[0].package == f.package);
        }
    } else {
        let tail = kept.drop_first();
        assert forall|i: int, j: int| 0 <= i < j < tail.len() implies (
        #[trigger] tail[i]).package != (#[trigger] tail[j]).package by {
            assert(tail[i] == kept[i + 1] && tail[j] == kept[j + 1]);
        }
        lemma_with_file_here(tail, f);
        let less = with_file(tail, f);
        assert forall|i: int| 0 <= i < new.len() implies #[trigger] new[i] == f || kept.contains(
            new[i],
        ) by {
            if i > 0 {
                assert(new[i] == less[i - 1]);
                if less[i - 1] != f {
                    let k = choose|k: int| 0 <= k < tail.len() && tail[k] == less[i - 1];
                    assert(kept[k + 1] == less[i - 1]);
                }
            }
        }
        assert forall|i: int, j: int| 0 <= i < j < new.len() implies (
        #[trigger] new[i]).package != (#[trigger] new[j]).package by {
            assert(new[j] == less[j - 1]);
            if i > 0 {
                assert(new[i] == less[i - 1]);
            } else if less[j - 1] != f {
                let k = choose|k: int| 0 <= k < tail.len() && tail[k] == less[j - 1];
                assert(kept[k + 1] == less[j - 1]);
            }
        }
        assert(stood_for(less, f));
        let a = choose|a: int|
            0 <= a < less.len() && (#[trigger] less[a]).package == f.package && less[a].size
                >= f.size;
        assert(new[a + 1] == less[a]);
        assert forall|x: SizedView| #[trigger] stood_for(kept, x) implies stood_for(new, x) by {
            let i = choose|i: int|
                0 <= i < kept.len() && (#[trigger] kept[i]).package == x.package && kept[i].size
                    >= x.size;
            if i == 0 {
                assert(new[0] == kept[0]);
            } else {
                assert(tail[i - 1] == kept[i]);
                assert(stood_for(tail, x));
                let b = choose|b: int|
                    0 <= b < less.len() && (#[trigger] less[b]).package == x.package
                        && less[b].size >= x.size;
                assert(new[b + 1] == less[b]);
            }
        }
    }
}

/// Files are ranked by how many lead to them, or by their size: none that stands
/// behind another has more. At most as many paths are given as were asked for.
pub proof fn files_are_ranked_by_their_key(files: Seq<SizedView>, by_fan_in: bool, max: nat)
    ensures
        ({
            let list = ranked(files, by_fan_in);
            &&& forall|i: int, j: int|
                0 <= i < j < list.len() ==> (#[trigger] list[i]).0 >= (#[trigger] list[j]).0
            &&& list.to_multiset() == files.map_values(
                |f: SizedView|
                    (
                        if by_fan_in {
                            f.fan_in as nat
                        } else {
                            f.size as nat
                        },
                        f,
                    ),
            ).to_multiset()
            &&& list.len() <= max ==> first_paths(list, max).len() == list.len()
            &&& list.len() > max ==> first_paths(list, max).len() == max
            &&& forall|i: int|
                0 <= i < first_paths(list, max).len() ==> #[trigger] first_paths(list, max)[i]
                    == list[i].1.path
        }),
    decreases files.len(),
{
    broadcast use vstd::seq_lib::group_to_multiset_ensures;

    let key = |f: SizedView|
        (
            if by_fan_in {
                f.fan_in as nat
            } else {
                f.size as nat
            },
            f,
        );
    if files.len() == 0 {
        assert(ranked(files, by_fan_in) =~= files.map_values(key));
    } else {
        let rest = files.drop_last();
        files_are_ranked_by_their_key(rest, by_fan_in, max);
        lemma_ranked_with_here(
            ranked(rest, by_fan_in),
            key_of(files.last(), by_fan_in),
            files.last(),
        );
        assert(files.map_values(key) =~= rest.map_values(key).push(key(files.last())));
    }
}

spec fn sinking(list: Seq<(nat, SizedView)>) -> bool {
    forall|i: int, j: int|
        0 <= i < j < list.len() ==> (#[trigger] list[i]).0 >= (#[trigger] list[j]).0
}

proof fn lemma_ranked_with_here(list: Seq<(nat, SizedView)>, key: nat, file: SizedView)
    requires
        sinking(list),
    ensures
        sinking(ranked_with(list, key, file)),
        ranked_with(list, key, file).to_multiset() == list.to_multiset().insert((key, file)),
        forall|i: int|
            0 <= i < ranked_with(list, key, file).len() ==> (#[trigger] ranked_with(
                list,
                key,
                file,
            )[i]).0 == key || list.contains(ranked_with(list, key, file)[i]),
    decreases list.len(),
{
    broadcast use vstd::seq_lib::group_to_multiset_ensures;

    let new = ranked_with(list, key, file);
    let x = (key, file);
    if list.len() == 0 || list[0].0 < key {
        vstd::seq_lib::lemma_multiset_commutative(seq![x], list);
        assert(seq![x] =~= Seq::empty().push(x));
        assert(new.to_multiset() =~= list.to_multiset().insert(x));
        assert forall|i: int| 0 <= i < new.len() implies (#[trigger] new[i]).0 == key
            || list.contains(new[i]) by {
            if i > 0 {
                assert(new[i] == list[i - 1]);
            }
        }
        assert forall|i: int, j: int| 0 <= i < j < new.len() implies (#[trigger] new[i]).0 >= (
        #[trigger] new[j]).0 by {
            assert(new[j] == list[j - 1]);
            if i > 0 {
                assert(new[i] == list[i - 1]);
            } else if j > 1 {
                assert(list[0].0 >= list[j - 1].0);
            }
        }
    } else {
        let tail = list.drop_first();
        assert forall|i: int, j: int| 0 <= i < j < tail.len() implies (#[trigger] tail[i]).0 >= (
        #[trigger] tail[j]).0 by {
            assert(tail[i] == list[i + 1] && tail[j] == list[j + 1]);
        }
        lemma_ranked_with_here(tail, key, file);
        let less = ranked_with(tail, key, file);
        vstd::seq_lib::lemma_multiset_commutative(seq![list[0]], less);
        vstd::seq_lib::lemma_multiset_commutative(seq![list[0]], tail);
        assert(seq![list[0]] + tail =~= list);
        assert(seq![list[0]] =~= Seq::empty().push(list[0]));
        assert(new.to_multiset() =~= list.to_multiset().insert(x));
        assert forall|i: int| 0 <= i < new.len() implies (#[trigger] new[i]).0 == key
            || list.contains(new[i]) by {
            if i > 0 {
                assert(new[i] == less[i - 1]);
                if less[i - 1].0 != key {
                    let k = choose|k: int| 0 <= k < tail.len() && tail[k] == less[i - 1];
                    assert(list[k + 1] == less[i - 1]);
                }
            }
        }
        assert forall|i: int, j: int| 0 <= i < j < new.len() implies (#[trigger] new[i]).0 >= (
        #[trigger] new[j]).0 by {
            assert(new[j] == less[j - 1]);
            if i > 0 {
                assert(new[i] == less[i - 1]);
            } else if less[j - 1].0 != key {
                let k = choose|k: int| 0 <= k < tail.len() && tail[k] == less[j - 1];
                assert(list[k + 1] == less[j - 1]);
                assert(list[0].0 >= list[k + 1].0);
            }
        }
    }
}

/// A proposed pair is kept where its first call is met often enough and the second
/// follows it often enough; the pairs stay in order.
pub proof fn proposals_are_kept_where_they_hold(
    events: Seq<EventView>,
    proposals: Seq<LlmProposedConvention>,
    p: LlmProposedConvention,
    min_occurrences: nat,
    min_share: nat,
)
    ensures
        ({
            let pair = mine_from_code::pair_in(events, p.call_a@, p.call_b@);
            let (was, is) = (
                verified(events, proposals, min_occurrences, min_share),
                verified(events, proposals.push(p), min_occurrences, min_share),
            );
            &&& pair.occurrences_of_a >= min_occurrences && pair.holds_for(min_share) ==> is
                == was.push(pair)
            &&& pair.occurrences_of_a < min_occurrences || !pair.holds_for(min_share) ==> is == was
        }),
        verified(events, Seq::empty(), min_occurrences, min_share).len() == 0,
{
    assert(proposals.push(p).drop_last() =~= proposals);
}

/// A share is rounded to the nearest hundredth, and to the even one of two that are
/// as near.
pub proof fn shares_are_rounded_to_the_nearest(part: nat, whole: nat)
    requires
        whole > 0,
    ensures
        ({
            let p = rounded_percent(part, whole);
            &&& 2 * (p * whole) <= 200 * part + whole
            &&& 200 * part <= 2 * (p * whole) + whole
            &&& 200 * part == 2 * (p * whole) + whole || 200 * part + whole == 2 * (p * whole)
                ==> p % 2 == 0
        }),
{
    let q = (part * 100 / whole) as int;
    let r = (part * 100 % whole) as int;
    let w = whole as int;
    assert(part * 100 == q * w + r && 0 <= r < w) by {
        vstd::arithmetic::div_mod::lemma_fundamental_div_mod((part * 100) as int, w);
        vstd::arithmetic::mul::lemma_mul_is_commutative(w, q);
    }
    assert((q + 1) * w == q * w + w) by (nonlinear_arith);
    let p = rounded_percent(part, whole) as int;
    if p == q {
        assert(p * w == q * w);
    } else {
        assert(p * w == q * w + w);
    }
}

/// A kept pair becomes a seed of its own, about correctness: its title names both
/// calls in order, and its message counts them and tells where the first stands.
pub proof fn pairs_become_seeds(conventions: Seq<ConventionView>, i: int)
    requires
        0 <= i < conventions.len(),
    ensures
        ({
            let c = conventions[i];
            let s = seeds_of(conventions)[i];
            &&& seeds_of(conventions).len() == conventions.len()
            &&& s.category == "correctness"@
            &&& s.rule_id_or_aspect == "llm-proposed-call-pair"@
            &&& s.cluster_id == digest::id_of(seq![c.call_a, c.call_b])
            &&& s.distinct_run_count == c.occurrences_of_a
            &&& s.member_fingerprints.len() == 1
            &&& s.representative_snippets.len() == 1
            &&& s.member_fingerprints[0] == "llm-pair-"@ + c.call_a + "-"@ + c.call_b
            &&& s.representative_snippets[0].fingerprint == s.member_fingerprints[0]
            &&& text::has(
                s.representative_snippets[0].title,
                "`"@ + c.call_a + "` should be paired with `"@ + c.call_b,
            )
            &&& text::has(
                s.representative_snippets[0].message,
                text::decimal_of(c.co_occurrences) + " of "@ + text::decimal_of(c.occurrences_of_a)
                    + " calls to `"@,
            )
            &&& text::has(
                s.representative_snippets[0].message,
                c.call_a + "` are followed nearby by a call to `"@ + c.call_b,
            )
            &&& text::has(
                s.representative_snippets[0].message,
                text::decimal_of(rounded_percent(c.co_occurrences, c.occurrences_of_a))
                    + "% consistency), e.g. "@ + c.example_location,
            )
        }),
{
    let c = conventions[i];
    text::lemma_glued_few("llm-pair-"@, c.call_a, "-"@, c.call_b);
    let t = seq!["`"@, c.call_a, "` should be paired with `"@, c.call_b, "`"@];
    text::lemma_glued_has(t, 0, 4);
    assert(t.subrange(0, 4) =~= seq![t[0], t[1], t[2], t[3]]);
    text::lemma_glued_few(t[0], t[1], t[2], t[3]);
    let m = seq![
        "Across this repo, "@,
        text::decimal_of(c.co_occurrences),
        " of "@,
        text::decimal_of(c.occurrences_of_a),
        " calls to `"@,
        c.call_a,
        "` are followed nearby by a call to `"@,
        c.call_b,
        "` ("@,
        text::decimal_of(rounded_percent(c.co_occurrences, c.occurrences_of_a)),
        "% consistency), e.g. "@,
        c.example_location,
        "."@,
    ];
    text::lemma_glued_has(m, 1, 5);
    assert(m.subrange(1, 5) =~= seq![m[1], m[2], m[3], m[4]]);
    text::lemma_glued_few(m[1], m[2], m[3], m[4]);
    text::lemma_glued_has(m, 5, 8);
    assert(m.subrange(5, 8) =~= seq![m[5], m[6], m[7]]);
    text::lemma_glued_few(m[5], m[6], m[7], m[7]);
    text::lemma_glued_has(m, 9, 12);
    assert(m.subrange(9, 12) =~= seq![m[9], m[10], m[11]]);
    text::lemma_glued_few(m[9], m[10], m[11], m[11]);
}

/// Conventions are asked for without tools, of the model, in the turns and in the
/// place that were given; what could not be read proposes nothing.
pub proof fn conventions_are_asked_for_without_tools(
    samples: Seq<SourceView>,
    model: Seq<char>,
    max_turns: u32,
    root: Seq<char>,
    read: Option<Vec<LlmProposedConvention>>,
)
    ensures
        ({
            let r = propose_request(samples, model, max_turns, root);
            r.allowed_tools.len() == 0 && r.model == model && r.max_turns == max_turns && r.cwd
                == root && text::ends(r.prompt, text::joined(sample_texts(samples), "\n"@))
        }),
        read matches Some(p) ==> proposals_of(read) == p@,
        read is None ==> proposals_of(read).len() == 0,
        sample_texts(samples).len() == samples.len(),
        forall|i: int|
            0 <= i < samples.len() ==> text::begins(
                #[trigger] sample_texts(samples)[i],
                "--- "@ + samples[i].path + " ---\n"@ + samples[i].content.take(
                    if samples[i].content.len() <= 4000 {
                        samples[i].content.len() as int
                    } else {
                        4000
                    },
                ),
            ),
{
    let tail = text::joined(sample_texts(samples), "\n"@);
    let prompt = propose_request(samples, model, max_turns, root).prompt;
    assert(prompt.subrange(prompt.len() - tail.len(), prompt.len() as int) =~= tail);
    assert forall|i: int| 0 <= i < samples.len() implies text::begins(
        #[trigger] sample_texts(samples)[i],
        "--- "@ + samples[i].path + " ---\n"@ + samples[i].content.take(
            if samples[i].content.len() <= 4000 {
                samples[i].content.len() as int
            } else {
                4000
            },
        ),
    ) by {
        let content = samples[i].content;
        let n = if content.len() <= 4000 {
            content.len() as int
        } else {
            4000
        };
        let head = text::head_of(content, MAX_SAMPLE_FILE_CHARS as nat);
        assert(head =~= content.take(n));
        let parts = seq!["--- "@, samples[i].path, " ---\n"@, head, "\n"@];
        text::lemma_glued_begins(parts, 4);
        assert(parts.take(4) =~= seq!["--- "@, samples[i].path, " ---\n"@, head]);
        text::lemma_glued_few("--- "@, samples[i].path, " ---\n"@, head);
    }
}

/// The files of the first graph that gives any are sampled, the largest of each
/// package by how many lead to it; without one, the largest files are.
pub proof fn the_first_graph_with_files_is_sampled(
    graphs: Seq<GraphFiles>,
    files: Seq<SizedView>,
    max: nat,
)
    ensures
        graphs.len() == 0 ==> sampled(graphs, files, max) == first_paths(ranked(files, false), max),
        graphs.len() > 0 ==> {
            let top = first_paths(ranked(largest_per_package(text::views(graphs[0]@)), true), max);
            &&& top.len() > 0 ==> sampled(graphs, files, max) == top
            &&& top.len() == 0 ==> sampled(graphs, files, max) == sampled(
                graphs.skip(1),
                files,
                max,
            )
        },
{
    if graphs.len() > 0 {
        assert(graphs.skip(1) =~= graphs.drop_first());
    }
}

} // verus!
