//! Groups recurring agent findings into candidate seeds. Findings of one
//! category whose title and message are alike form a cluster; a cluster of at
//! least three findings from at least two runs becomes a seed.

use vstd::prelude::*;

use crate::clusters;
use crate::digest;
use crate::storage::history_store::{MinedFindingRow, MinedRowView};
use crate::text;

verus! {

/// How many findings a seed has at least.
pub const MIN_CLUSTER_MEMBERS: usize = 3;

/// How many runs the findings of a seed come from at least.
pub const MIN_DISTINCT_RUNS: usize = 2;

/// How many findings a seed quotes at most.
pub const MAX_REPRESENTATIVE_SNIPPETS: usize = 5;

/// A finding that a seed quotes.
#[derive(Debug, Clone, PartialEq, Eq)]
pub struct RepresentativeSnippet {
    pub fingerprint: String,
    pub title: String,
    pub message: String,
}

/// What a `RepresentativeSnippet` says.
pub struct SnippetView {
    pub fingerprint: Seq<char>,
    pub title: Seq<char>,
    pub message: Seq<char>,
}

impl View for RepresentativeSnippet {
    type V = SnippetView;

    open spec fn view(&self) -> SnippetView {
        SnippetView {
            fingerprint: self.fingerprint@,
            title: self.title@,
            message: self.message@,
        }
    }
}

/// A cluster of recurring findings that is worth drafting a rule for.
#[derive(Debug, Clone, PartialEq, Eq)]
pub struct CandidateSeed {
    pub cluster_id: String,
    pub category: String,
    pub rule_id_or_aspect: String,
    pub member_fingerprints: Vec<String>,
    pub distinct_run_count: usize,
    pub representative_snippets: Vec<RepresentativeSnippet>,
}

/// What a `CandidateSeed` says.
pub struct SeedView {
    pub cluster_id: Seq<char>,
    pub category: Seq<char>,
    pub rule_id_or_aspect: Seq<char>,
    pub member_fingerprints: Seq<Seq<char>>,
    pub distinct_run_count: nat,
    pub representative_snippets: Seq<SnippetView>,
}

impl View for CandidateSeed {
    type V = SeedView;

    open spec fn view(&self) -> SeedView {
        SeedView {
            cluster_id: self.cluster_id@,
            category: self.category@,
            rule_id_or_aspect: self.rule_id_or_aspect@,
            member_fingerprints: text::views(self.member_fingerprints@),
            distinct_run_count: self.distinct_run_count as nat,
            representative_snippets: text::views(self.representative_snippets@),
        }
    }
}

/// The identifier of a cluster: it depends on the category and the title of the
/// cluster's first finding alone, whatever the title's case.
pub open spec fn cluster_id_of(category: Seq<char>, title: Seq<char>) -> Seq<char> {
    digest::id_of(seq![category, text::lowercase(title)])
}

/// The identifier of a cluster.
pub fn cluster_id_for(category: &str, representative_title: &str) -> (id: String)
    ensures
        id@ == cluster_id_of(category@, representative_title@),
{
    let mut parts: Vec<String> = Vec::new();
    parts.push(category.to_owned());
    parts.push(text::to_lower(representative_title));
    proof {
        assert(text::views(parts@) =~= seq![
            category@,
            text::lowercase(representative_title@),
        ]);
    }
    digest::short_id(&parts)
}

/// The categories of findings.
pub open spec fn categories_of(rows: Seq<MinedRowView>) -> Seq<Seq<char>> {
    Seq::new(rows.len(), |i: int| rows[i].category)
}

/// The findings of one category.
pub open spec fn in_category(rows: Seq<MinedRowView>, category: Seq<char>) -> Seq<MinedRowView>
    decreases rows.len(),
{
    if rows.len() == 0 {
        Seq::empty()
    } else if rows.last().category == category {
        in_category(rows.drop_last(), category).push(rows.last())
    } else {
        in_category(rows.drop_last(), category)
    }
}

/// The text by which findings are compared: the title, a space and the message.
pub open spec fn texts_of(rows: Seq<MinedRowView>) -> Seq<Seq<char>> {
    Seq::new(rows.len(), |i: int| rows[i].title + " "@ + rows[i].message)
}

/// The runs that the findings of a cluster come from.
pub open spec fn runs_of(group: Seq<MinedRowView>, cluster: Seq<usize>) -> Seq<Seq<char>> {
    Seq::new(cluster.len(), |k: int| group[cluster[k] as int].run_id)
}

/// The fingerprints of the findings of a cluster.
pub open spec fn fingerprints_of(group: Seq<MinedRowView>, cluster: Seq<usize>) -> Seq<Seq<char>> {
    Seq::new(cluster.len(), |k: int| group[cluster[k] as int].fingerprint)
}

/// What a seed quotes of a finding.
pub open spec fn snippet_of(row: MinedRowView) -> SnippetView {
    SnippetView { fingerprint: row.fingerprint, title: row.title, message: row.message }
}

/// What a seed quotes of a cluster: its first findings.
pub open spec fn snippets_of(group: Seq<MinedRowView>, cluster: Seq<usize>) -> Seq<SnippetView> {
    Seq::new(
        if cluster.len() < MAX_REPRESENTATIVE_SNIPPETS {
            cluster.len()
        } else {
            MAX_REPRESENTATIVE_SNIPPETS as nat
        },
        |k: int| snippet_of(group[cluster[k] as int]),
    )
}

/// A cluster recurs: it has enough findings, from enough runs.
pub open spec fn recurs(group: Seq<MinedRowView>, cluster: Seq<usize>) -> bool {
    cluster.len() >= MIN_CLUSTER_MEMBERS && text::distinct_of(runs_of(group, cluster)).len()
        >= MIN_DISTINCT_RUNS
}

/// The seed of a cluster.
pub open spec fn seed_of(category: Seq<char>, group: Seq<MinedRowView>, cluster: Seq<usize>) -> SeedView {
    let first = group[cluster[0] as int];
    SeedView {
        cluster_id: cluster_id_of(category, first.title),
        category,
        rule_id_or_aspect: first.rule_id_or_aspect,
        member_fingerprints: fingerprints_of(group, cluster),
        distinct_run_count: text::distinct_of(runs_of(group, cluster)).len(),
        representative_snippets: snippets_of(group, cluster),
    }
}

/// The seeds of the clusters that recur.
pub open spec fn seeds_in(
    category: Seq<char>,
    group: Seq<MinedRowView>,
    clusters: Seq<Seq<usize>>,
) -> Seq<SeedView>
    decreases clusters.len(),
{
    if clusters.len() == 0 {
        Seq::empty()
    } else if recurs(group, clusters.last()) {
        seeds_in(category, group, clusters.drop_last()).push(
            seed_of(category, group, clusters.last()),
        )
    } else {
        seeds_in(category, group, clusters.drop_last())
    }
}

/// The seeds of findings in one category.
pub open spec fn seeds_for(rows: Seq<MinedRowView>, category: Seq<char>) -> Seq<SeedView> {
    let group = in_category(rows, category);
    seeds_in(category, group, clusters::clusters_of(texts_of(group), group.len()))
}

/// The seeds of findings in each of some categories.
pub open spec fn seeds_over(rows: Seq<MinedRowView>, categories: Seq<Seq<char>>) -> Seq<SeedView>
    decreases categories.len(),
{
    if categories.len() == 0 {
        Seq::empty()
    } else {
        seeds_over(rows, categories.drop_last()) + seeds_for(rows, categories.last())
    }
}

/// The seeds of findings, category by category in the order in which the
/// findings bring the categories up.
pub open spec fn mined(rows: Seq<MinedRowView>) -> Seq<SeedView> {
    seeds_over(rows, text::distinct_of(categories_of(rows)))
}

fn rows_in_category(rows: &Vec<MinedFindingRow>, category: &str) -> (group: Vec<MinedFindingRow>)
    ensures
        text::views(group@) == in_category(text::views(rows@), category@),
{
    let ghost all = text::views(rows@);
    let mut group: Vec<MinedFindingRow> = Vec::new();
    proof {
        assert(text::views(group@) =~= Seq::empty());
    }
    let mut i: usize = 0;
    while i < rows.len()
        invariant
            0 <= i <= rows@.len(),
            all == text::views(rows@),
            text::views(group@) == in_category(all.take(i as int), category@),
        decreases rows.len() - i,
    {
        proof {
            assert(all.take(i + 1).drop_last() =~= all.take(i as int));
            assert(all.take(i + 1).last() == rows@[i as int]@);
        }
        if text::same(rows[i].category.as_str(), category) {
            let row = MinedFindingRow {
                fingerprint: rows[i].fingerprint.clone(),
                category: rows[i].category.clone(),
                rule_id_or_aspect: rows[i].rule_id_or_aspect.clone(),
                title: rows[i].title.clone(),
                message: rows[i].message.clone(),
                run_id: rows[i].run_id.clone(),
            };
            proof {
                text::lemma_views_push(group@, row);
            }
            group.push(row);
        }
        i += 1;
    }
    proof {
        assert(all.take(all.len() as int) =~= all);
    }
    group
}

fn row_texts(rows: &Vec<MinedFindingRow>) -> (texts: Vec<String>)
    ensures
        text::views(texts@) == texts_of(text::views(rows@)),
{
    let ghost all = texts_of(text::views(rows@));
    let mut texts: Vec<String> = Vec::new();
    let mut i: usize = 0;
    while i < rows.len()
        invariant
            0 <= i <= rows@.len(),
            all == texts_of(text::views(rows@)),
            texts@.len() == i,
            forall|j: int| 0 <= j < i ==> (#[trigger] texts@[j])@ == all[j],
        decreases rows.len() - i,
    {
        texts.push(text::concat3(rows[i].title.as_str(), " ", rows[i].message.as_str()));
        i += 1;
    }
    proof {
        assert(text::views(texts@) =~= all);
    }
    texts
}

fn row_categories(rows: &Vec<MinedFindingRow>) -> (categories: Vec<String>)
    ensures
        text::views(categories@) == categories_of(text::views(rows@)),
{
    let ghost all = categories_of(text::views(rows@));
    let mut categories: Vec<String> = Vec::new();
    let mut i: usize = 0;
    while i < rows.len()
        invariant
            0 <= i <= rows@.len(),
            all == categories_of(text::views(rows@)),
            categories@.len() == i,
            forall|j: int| 0 <= j < i ==> (#[trigger] categories@[j])@ == all[j],
        decreases rows.len() - i,
    {
        categories.push(rows[i].category.clone());
        i += 1;
    }
    proof {
        assert(text::views(categories@) =~= all);
    }
    categories
}

fn seed_for_cluster(category: &str, group: &Vec<MinedFindingRow>, cluster: &Vec<usize>) -> (seed:
    Option<CandidateSeed>)
    requires
        cluster@.len() > 0,
        forall|k: int| 0 <= k < cluster@.len() ==> (#[trigger] cluster@[k]) < group@.len(),
    ensures
        match seed {
            Some(s) => recurs(text::views(group@), cluster@) && s@ == seed_of(
                category@,
                text::views(group@),
                cluster@,
            ),
            None => !recurs(text::views(group@), cluster@),
        },
{
    if cluster.len() < MIN_CLUSTER_MEMBERS {
        return None;
    }
    let ghost rows = text::views(group@);
    let mut runs: Vec<String> = Vec::new();
    let mut fingerprints: Vec<String> = Vec::new();
    let mut snippets: Vec<RepresentativeSnippet> = Vec::new();
    let mut k: usize = 0;
    while k < cluster.len()
        invariant
            0 <= k <= cluster@.len(),
            rows == text::views(group@),
            forall|j: int| 0 <= j < cluster@.len() ==> (#[trigger] cluster@[j]) < group@.len(),
            runs@.len() == k,
            fingerprints@.len() == k,
            snippets@.len() == if k < MAX_REPRESENTATIVE_SNIPPETS {
                k as int
            } else {
                MAX_REPRESENTATIVE_SNIPPETS as int
            },
            forall|j: int| 0 <= j < k ==> (#[trigger] runs@[j])@ == runs_of(rows, cluster@)[j],
            forall|j: int|
                0 <= j < k ==> (#[trigger] fingerprints@[j])@ == fingerprints_of(rows, cluster@)[j],
            forall|j: int|
                0 <= j < snippets@.len() ==> (#[trigger] snippets@[j])@ == snippet_of(
                    rows[cluster@[j] as int],
                ),
        decreases cluster.len() - k,
    {
        let row: &MinedFindingRow = &group[cluster[k]];
        runs.push(row.run_id.clone());
        fingerprints.push(row.fingerprint.clone());
        if k < MAX_REPRESENTATIVE_SNIPPETS {
            snippets.push(
                RepresentativeSnippet {
                    fingerprint: row.fingerprint.clone(),
                    title: row.title.clone(),
                    message: row.message.clone(),
                },
            );
        }
        k += 1;
    }
    proof {
        assert(text::views(runs@) =~= runs_of(rows, cluster@));
        assert(text::views(fingerprints@) =~= fingerprints_of(rows, cluster@));
        assert(text::views(snippets@) =~= snippets_of(rows, cluster@));
    }
    let distinct: Vec<String> = text::distinct(&runs);
    proof {
        assert(text::views(distinct@).len() == distinct@.len());
    }
    if distinct.len() < MIN_DISTINCT_RUNS {
        return None;
    }
    let first: &MinedFindingRow = &group[cluster[0]];
    Some(
        CandidateSeed {
            cluster_id: cluster_id_for(category, first.title.as_str()),
            category: category.to_owned(),
            rule_id_or_aspect: first.rule_id_or_aspect.clone(),
            member_fingerprints: fingerprints,
            distinct_run_count: distinct.len(),
            representative_snippets: snippets,
        },
    )
}

fn mine_category(rows: &Vec<MinedFindingRow>, category: &str, seeds: &mut Vec<CandidateSeed>)
    ensures
        text::views(final(seeds)@) == text::views(old(seeds)@) + seeds_for(
            text::views(rows@),
            category@,
        ),
{
    let ghost before = text::views(seeds@);
    let group: Vec<MinedFindingRow> = rows_in_category(rows, category);
    let texts: Vec<String> = row_texts(&group);
    let clusters: Vec<Vec<usize>> = clusters::cluster_texts(&texts);
    let ghost all = text::views(group@);
    let ghost found = text::views(clusters@);
    proof {
        assert(texts@.len() == text::views(texts@).len());
        assert(group@.len() == all.len());
        assert(before + Seq::<SeedView>::empty() =~= before);
    }
    let mut i: usize = 0;
    while i < clusters.len()
        invariant
            0 <= i <= clusters@.len(),
            all == text::views(group@),
            found == text::views(clusters@),
            clusters::well_grouped(found, texts_of(all), all.len()),
            text::views(seeds@) == before + seeds_in(category@, all, found.take(i as int)),
        decreases clusters.len() - i,
    {
        proof {
            assert(found.take(i + 1).drop_last() =~= found.take(i as int));
            assert(found.take(i + 1).last() == clusters@[i as int]@);
            assert(found[i as int].len() > 0);
            assert forall|k: int| 0 <= k < clusters@[i as int]@.len() implies (
            #[trigger] clusters@[i as int]@[k]) < group@.len() by {
                assert(found[i as int][k] < all.len());
            }
        }
        match seed_for_cluster(category, &group, &clusters[i]) {
            Some(seed) => {
                proof {
                    text::lemma_views_push(seeds@, seed);
                    assert((before + seeds_in(category@, all, found.take(i as int))).push(seed@)
                        =~= before + seeds_in(category@, all, found.take(i as int)).push(seed@));
                }
                seeds.push(seed);
            },
            None => {},
        }
        i += 1;
    }
    proof {
        assert(found.take(found.len() as int) =~= found);
    }
}

/// Groups findings into candidate seeds.
pub fn mine_candidates(findings: Vec<MinedFindingRow>) -> (seeds: Vec<CandidateSeed>)
    ensures
        text::views(seeds@) == mined(text::views(findings@)),
{
    let categories: Vec<String> = text::distinct(&row_categories(&findings));
    let ghost rows = text::views(findings@);
    let ghost all = text::views(categories@);
    let mut seeds: Vec<CandidateSeed> = Vec::new();
    proof {
        assert(text::views(seeds@) =~= Seq::empty());
    }
    let mut i: usize = 0;
    while i < categories.len()
        invariant
            0 <= i <= categories@.len(),
            rows == text::views(findings@),
            all == text::views(categories@),
            text::views(seeds@) == seeds_over(rows, all.take(i as int)),
        decreases categories.len() - i,
    {
        proof {
            assert(all.take(i + 1).drop_last() =~= all.take(i as int));
            assert(all.take(i + 1).last() == categories@[i as int]@);
        }
        mine_category(&findings, categories[i].as_str(), &mut seeds);
        i += 1;
    }
    proof {
        assert(all.take(all.len() as int) =~= all);
    }
    seeds
}

/// What a seed is worth drafting for: it has at least three findings, all of its
/// category, from at least two runs, and quotes at most five of them. It is
/// identified by its category and the title of the first.
pub open spec fn worth_drafting(seed: SeedView, rows: Seq<MinedRowView>) -> bool {
    &&& seed.member_fingerprints.len() >= MIN_CLUSTER_MEMBERS
    &&& seed.distinct_run_count >= MIN_DISTINCT_RUNS
    &&& 0 < seed.representative_snippets.len() <= MAX_REPRESENTATIVE_SNIPPETS
    &&& seed.cluster_id == cluster_id_of(seed.category, seed.representative_snippets[0].title)
    &&& forall|k: int|
        0 <= k < seed.member_fingerprints.len() ==> is_fingerprint_in(
            rows,
            seed.category,
            #[trigger] seed.member_fingerprints[k],
        )
}

/// One of the findings is of the category and has the fingerprint.
pub open spec fn is_fingerprint_in(
    rows: Seq<MinedRowView>,
    category: Seq<char>,
    fingerprint: Seq<char>,
) -> bool {
    exists|i: int|
        0 <= i < rows.len() && (#[trigger] rows[i]).category == category && rows[i].fingerprint
            == fingerprint
}

proof fn lemma_in_category(rows: Seq<MinedRowView>, category: Seq<char>, k: int)
    requires
        0 <= k < in_category(rows, category).len(),
    ensures
        is_fingerprint_in(rows, category, in_category(rows, category)[k].fingerprint),
    decreases rows.len(),
{
    let rest = in_category(rows.drop_last(), category);
    if k < rest.len() {
        lemma_in_category(rows.drop_last(), category, k);
        let i = choose|i: int|
            0 <= i < rows.drop_last().len() && (#[trigger] rows.drop_last()[i]).category == category
                && rows.drop_last()[i].fingerprint == rest[k].fingerprint;
        assert(rows[i] == rows.drop_last()[i]);
    } else {
        assert(rows[rows.len() - 1].category == category);
    }
}

proof fn lemma_seeds_in(
    rows: Seq<MinedRowView>,
    category: Seq<char>,
    clusters: Seq<Seq<usize>>,
    k: int,
)
    requires
        ({
            let group = in_category(rows, category);
            &&& clusters::well_grouped(clusters, texts_of(group), group.len())
            &&& 0 <= k < seeds_in(category, group, clusters).len()
        }),
    ensures
        worth_drafting(seeds_in(category, in_category(rows, category), clusters)[k], rows),
    decreases clusters.len(),
{
    let group = in_category(rows, category);
    let rest = seeds_in(category, group, clusters.drop_last());
    if k < rest.len() {
        assert forall|c: int| 0 <= c < clusters.drop_last().len() implies (
        #[trigger] clusters.drop_last()[c]) == clusters[c] by {
        }
        lemma_seeds_in(rows, category, clusters.drop_last(), k);
    } else {
        let last = clusters[clusters.len() - 1];
        let seed = seed_of(category, group, last);
        assert forall|m: int| 0 <= m < seed.member_fingerprints.len() implies is_fingerprint_in(
            rows,
            seed.category,
            #[trigger] seed.member_fingerprints[m],
        ) by {
            assert(last[m] < group.len());
            lemma_in_category(rows, category, last[m] as int);
        }
    }
}

proof fn lemma_seeds_over(rows: Seq<MinedRowView>, categories: Seq<Seq<char>>, k: int)
    requires
        rows.len() <= usize::MAX,
        0 <= k < seeds_over(rows, categories).len(),
    ensures
        worth_drafting(seeds_over(rows, categories)[k], rows),
    decreases categories.len(),
{
    let rest = seeds_over(rows, categories.drop_last());
    if k < rest.len() {
        lemma_seeds_over(rows, categories.drop_last(), k);
    } else {
        let group = in_category(rows, categories.last());
        lemma_category_bound(rows, categories.last());
        clusters::members_are_alike_to_the_first(texts_of(group), group.len());
        lemma_seeds_in(
            rows,
            categories.last(),
            clusters::clusters_of(texts_of(group), group.len()),
            k - rest.len(),
        );
    }
}

proof fn lemma_category_bound(rows: Seq<MinedRowView>, category: Seq<char>)
    ensures
        in_category(rows, category).len() <= rows.len(),
    decreases rows.len(),
{
    if rows.len() > 0 {
        lemma_category_bound(rows.drop_last(), category);
    }
}

/// Every seed that is mined has at least three findings of its own category
/// from at least two runs, and quotes between one and five of them.
pub proof fn seeds_recur(rows: Seq<MinedRowView>, k: int)
    requires
        rows.len() <= usize::MAX,
        0 <= k < mined(rows).len(),
    ensures
        worth_drafting(mined(rows)[k], rows),
{
    lemma_seeds_over(rows, text::distinct_of(categories_of(rows)), k);
}

/// A cluster keeps its identifier from one mining to the next: seeds of equal
/// category whose first findings have equal titles have equal identifiers.
pub proof fn cluster_ids_are_stable(
    rows: Seq<MinedRowView>,
    k: int,
    others: Seq<MinedRowView>,
    m: int,
)
    requires
        rows.len() <= usize::MAX,
        others.len() <= usize::MAX,
        0 <= k < mined(rows).len(),
        0 <= m < mined(others).len(),
        mined(rows)[k].category == mined(others)[m].category,
        mined(rows)[k].representative_snippets[0].title == mined(
            others,
        )[m].representative_snippets[0].title,
    ensures
        mined(rows)[k].cluster_id == mined(others)[m].cluster_id,
{
    seeds_recur(rows, k);
    seeds_recur(others, m);
}

/// Nothing is mined from fewer than three findings.
pub proof fn two_findings_are_no_pattern(rows: Seq<MinedRowView>)
    requires
        rows.len() < MIN_CLUSTER_MEMBERS,
    ensures
        mined(rows).len() == 0,
{
    if mined(rows).len() > 0 {
        lemma_seeds_small(rows, text::distinct_of(categories_of(rows)));
    }
}

proof fn lemma_seeds_small(rows: Seq<MinedRowView>, categories: Seq<Seq<char>>)
    requires
        rows.len() < MIN_CLUSTER_MEMBERS,
    ensures
        seeds_over(rows, categories).len() == 0,
    decreases categories.len(),
{
    if categories.len() > 0 {
        lemma_seeds_small(rows, categories.drop_last());
        let group = in_category(rows, categories.last());
        lemma_category_bound(rows, categories.last());
        clusters::members_are_alike_to_the_first(texts_of(group), group.len());
        lemma_no_seeds(
            categories.last(),
            group,
            clusters::clusters_of(texts_of(group), group.len()),
        );
    }
}

proof fn lemma_no_seeds(category: Seq<char>, group: Seq<MinedRowView>, clusters: Seq<Seq<usize>>)
    requires
        group.len() < MIN_CLUSTER_MEMBERS,
        clusters::well_grouped(clusters, texts_of(group), group.len()),
    ensures
        seeds_in(category, group, clusters).len() == 0,
    decreases clusters.len(),
{
    if clusters.len() > 0 {
        assert forall|c: int| 0 <= c < clusters.drop_last().len() implies (
        #[trigger] clusters.drop_last()[c]) == clusters[c] by {
        }
        lemma_no_seeds(category, group, clusters.drop_last());
        assert(clusters[clusters.len() - 1].len() <= group.len());
    }
}

/// The findings of a category are mined together, in order, by their titles and
/// messages.
pub proof fn categories_are_mined_apart(rows: Seq<MinedRowView>, category: Seq<char>)
    ensures
        in_category(rows, category) == rows.filter(|r: MinedRowView| r.category == category),
        texts_of(rows) == rows.map_values(|r: MinedRowView| r.title + " "@ + r.message),
    decreases rows.len(),
{
    reveal(Seq::filter);
    if rows.len() > 0 {
        categories_are_mined_apart(rows.drop_last(), category);
    }
    assert(texts_of(rows) =~= rows.map_values(|r: MinedRowView| r.title + " "@ + r.message));
}

/// A cluster is a pattern where it has three members or more and they come from two
/// runs or more; a pattern becomes a seed, and nothing else does.
pub proof fn patterns_become_seeds(
    category: Seq<char>,
    group: Seq<MinedRowView>,
    clusters: Seq<Seq<usize>>,
    cluster: Seq<usize>,
)
    ensures
        ({
            let runs = text::distinct_of(
                Seq::new(cluster.len(), |k: int| group[cluster[k] as int].run_id),
            ).len();
            let (was, is) = (
                seeds_in(category, group, clusters),
                seeds_in(category, group, clusters.push(cluster)),
            );
            &&& cluster.len() >= 3 && runs >= 2 ==> is.len() == was.len() + 1 && is.drop_last()
                == was && is.last().distinct_run_count == runs
            &&& cluster.len() < 3 || runs < 2 ==> is == was
        }),
        seeds_in(category, group, Seq::empty()).len() == 0,
{
    assert(clusters.push(cluster).drop_last() =~= clusters);
    assert(runs_of(group, cluster) =~= Seq::new(
        cluster.len(),
        |k: int| group[cluster[k] as int].run_id,
    ));
    let was = seeds_in(category, group, clusters);
    assert(was.push(seed_of(category, group, cluster)).drop_last() =~= was);
}

/// What a seed is made of: the fingerprints of all members, in order, the title and
/// the message of the first five, and the rule or aspect of the first.
pub proof fn seeds_are_made_of_their_members(
    category: Seq<char>,
    group: Seq<MinedRowView>,
    cluster: Seq<usize>,
)
    requires
        cluster.len() > 0,
    ensures
        ({
            let s = seed_of(category, group, cluster);
            let member = |k: int| group[cluster[k] as int];
            &&& s.category == category
            &&& s.rule_id_or_aspect == member(0).rule_id_or_aspect
            &&& s.member_fingerprints.len() == cluster.len()
            &&& forall|k: int|
                0 <= k < cluster.len() ==> #[trigger] s.member_fingerprints[k] == member(
                    k,
                ).fingerprint
            &&& cluster.len() <= 5 ==> s.representative_snippets.len() == cluster.len()
            &&& cluster.len() > 5 ==> s.representative_snippets.len() == 5
            &&& forall|k: int|
                0 <= k < s.representative_snippets.len() ==> (
                #[trigger] s.representative_snippets[k]).title == member(k).title
                    && s.representative_snippets[k].message == member(k).message
                    && s.representative_snippets[k].fingerprint == member(k).fingerprint
            &&& s.cluster_id == digest::id_of(seq![category, text::lowercase(member(0).title)])
        }),
{
}

} // verus!
