//! The embeddings of findings that feedback was given on. How similar two
//! embeddings are is for the caller to say.

use vstd::prelude::*;

use crate::schema::FeedbackVerdict;
use crate::storage::history_store::{EmbeddingRow, EmbeddingView, HistoryStore, HistoryView};
use crate::text;

verus! {

/// How many embeddings are looked at, the most recent ones.
pub const MAX_SCANNED_EMBEDDINGS: u32 = 2_000;

/// One of some verdicts.
pub open spec fn is_among(label: Seq<char>, verdicts: Seq<FeedbackVerdict>) -> bool {
    exists|i: int| 0 <= i < verdicts.len() && (#[trigger] verdicts[i]).label() == label
}

fn among(label: &str, verdicts: &[FeedbackVerdict]) -> (r: bool)
    ensures
        r == is_among(label@, verdicts@),
{
    let mut i: usize = 0;
    while i < verdicts.len()
        invariant
            0 <= i <= verdicts@.len(),
            forall|j: int| 0 <= j < i ==> (#[trigger] verdicts@[j]).label() != label@,
        decreases verdicts.len() - i,
    {
        if text::same(verdicts[i].as_str(), label) {
            return true;
        }
        i += 1;
    }
    false
}

/// The embeddings of feedback with one of some verdicts, the most recent first,
/// `n` at most.
pub open spec fn scanned(
    rows: Seq<EmbeddingView>,
    verdicts: Seq<FeedbackVerdict>,
    n: nat,
) -> Seq<EmbeddingView>
    decreases rows.len(),
{
    if rows.len() == 0 || n == 0 {
        Seq::empty()
    } else if is_among(rows.last().verdict, verdicts) {
        seq![rows.last()] + scanned(rows.drop_last(), verdicts, (n - 1) as nat)
    } else {
        scanned(rows.drop_last(), verdicts, n)
    }
}

/// The fingerprints of the embeddings that are similar.
pub open spec fn matched(rows: Seq<EmbeddingView>, similar: Seq<bool>) -> Seq<Seq<char>>
    decreases rows.len(),
{
    if rows.len() == 0 {
        Seq::empty()
    } else if rows.len() <= similar.len() && similar[rows.len() - 1] {
        matched(rows.drop_last(), similar).push(rows.last().fingerprint)
    } else {
        matched(rows.drop_last(), similar)
    }
}

impl HistoryStore {
    /// Adds the embedding of a finding that feedback was given on.
    pub fn record_embedding(
        &mut self,
        fingerprint: &str,
        verdict: FeedbackVerdict,
        embedding: Vec<u8>,
        created_at: &str,
    )
        ensures
            final(self)@ == (HistoryView {
                embeddings: old(self)@.embeddings.push(
                    EmbeddingView {
                        fingerprint: fingerprint@,
                        verdict: verdict.label(),
                        embedding: embedding@,
                        created_at: created_at@,
                    },
                ),
                ..old(self)@
            }),
    {
        let row = EmbeddingRow {
            fingerprint: fingerprint.to_owned(),
            verdict: verdict.as_str().to_owned(),
            embedding,
            created_at: created_at.to_owned(),
        };
        proof {
            text::lemma_views_push(self.embeddings@, row);
        }
        self.embeddings.push(row);
    }

    /// The embeddings of feedback with one of some verdicts that are looked at:
    /// the most recent ones, the last one first.
    pub fn scanned_embeddings(&self, verdicts: &[FeedbackVerdict]) -> (rows: Vec<&EmbeddingRow>)
        ensures
            text::views(rows@) == scanned(
                self@.embeddings,
                verdicts@,
                MAX_SCANNED_EMBEDDINGS as nat,
            ),
            rows@.len() <= MAX_SCANNED_EMBEDDINGS,
    {
        let ghost all = self@.embeddings;
        let ghost limit = MAX_SCANNED_EMBEDDINGS as nat;
        let mut rows: Vec<&EmbeddingRow> = Vec::new();
        let mut i: usize = self.embeddings.len();
        proof {
            assert(all.take(all.len() as int) =~= all);
            assert(text::views(rows@) + scanned(all, verdicts@, limit) =~= scanned(
                all,
                verdicts@,
                limit,
            ));
        }
        while i > 0 && rows.len() < MAX_SCANNED_EMBEDDINGS as usize
            invariant
                0 <= i <= self.embeddings@.len(),
                all == self@.embeddings,
                limit == MAX_SCANNED_EMBEDDINGS,
                rows@.len() <= limit,
                scanned(all, verdicts@, limit) == text::views(rows@) + scanned(
                    all.take(i as int),
                    verdicts@,
                    (limit - rows@.len()) as nat,
                ),
            decreases i,
        {
            let row: &EmbeddingRow = &self.embeddings[i - 1];
            let ghost had = text::views(rows@);
            proof {
                assert(all.take(i as int).drop_last() =~= all.take(i - 1));
                assert(all.take(i as int).last() == row@);
            }
            if among(row.verdict.as_str(), verdicts) {
                proof {
                    text::lemma_views_push(rows@, row);
                    let rest = scanned(
                        all.take(i - 1),
                        verdicts@,
                        (limit - rows@.len() - 1) as nat,
                    );
                    assert(had + (seq![row@] + rest) =~= had.push(row@) + rest);
                }
                rows.push(row);
            }
            i -= 1;
        }
        proof {
            assert(text::views(rows@) + Seq::<EmbeddingView>::empty() =~= text::views(rows@));
        }
        rows
    }

    /// How many fingerprints have an embedding that is similar, among those of
    /// feedback with one of some verdicts that are looked at. `similar` says which
    /// of these are similar, in the order of `scanned_embeddings`.
    pub fn count_similar_embeddings(
        &self,
        verdicts: &[FeedbackVerdict],
        similar: &Vec<bool>,
    ) -> (n: u32)
        ensures
            n == text::distinct_of(
                matched(
                    scanned(self@.embeddings, verdicts@, MAX_SCANNED_EMBEDDINGS as nat),
                    similar@,
                ),
            ).len(),
    {
        let rows: Vec<&EmbeddingRow> = self.scanned_embeddings(verdicts);
        let ghost all = text::views(rows@);
        let mut prints: Vec<String> = Vec::new();
        proof {
            assert(text::views(prints@) =~= Seq::empty());
        }
        let mut i: usize = 0;
        while i < rows.len()
            invariant
                0 <= i <= rows@.len(),
                rows@.len() <= MAX_SCANNED_EMBEDDINGS,
                all == text::views(rows@),
                prints@.len() <= i,
                text::views(prints@) == matched(all.take(i as int), similar@),
            decreases rows.len() - i,
        {
            proof {
                assert(all.take(i + 1).drop_last() =~= all.take(i as int));
                assert(all.take(i + 1).last() == rows@[i as int]@);
            }
            if i < similar.len() && similar[i] {
                let print: String = rows[i].fingerprint.clone();
                proof {
                    text::lemma_views_push(prints@, print);
                }
                prints.push(print);
            }
            i += 1;
        }
        proof {
            assert(all.take(all.len() as int) =~= all);
        }
        let found: Vec<String> = text::distinct(&prints);
        proof {
            assert(text::views(found@).len() == found@.len());
        }
        found.len() as u32
    }
}

/// A fingerprint counts once, however many of its embeddings are similar.
pub proof fn fingerprints_count_once(rows: Seq<EmbeddingView>, similar: Seq<bool>)
    ensures
        text::distinct_of(matched(rows, similar)).no_duplicates(),
{
    text::distinct_is_the_set(matched(rows, similar));
}

proof fn lemma_scanned(rows: Seq<EmbeddingView>, verdicts: Seq<FeedbackVerdict>, n: nat)
    ensures
        scanned(rows, verdicts, n).len() <= n,
        forall|i: int|
            0 <= i < scanned(rows, verdicts, n).len() ==> is_among(
                (#[trigger] scanned(rows, verdicts, n)[i]).verdict,
                verdicts,
            ),
    decreases rows.len(),
{
    if rows.len() > 0 && n > 0 {
        if is_among(rows.last().verdict, verdicts) {
            let rest = scanned(rows.drop_last(), verdicts, (n - 1) as nat);
            lemma_scanned(rows.drop_last(), verdicts, (n - 1) as nat);
            assert forall|i: int| 0 <= i < scanned(rows, verdicts, n).len() implies is_among(
                (#[trigger] scanned(rows, verdicts, n)[i]).verdict,
                verdicts,
            ) by {
                if i > 0 {
                    assert(scanned(rows, verdicts, n)[i] == rest[i - 1]);
                }
            }
        } else {
            lemma_scanned(rows.drop_last(), verdicts, n);
        }
    }
}

/// No more than the limit is looked at, and nothing of another verdict.
pub proof fn only_the_verdicts_asked_for_are_scanned(
    rows: Seq<EmbeddingView>,
    verdicts: Seq<FeedbackVerdict>,
)
    ensures
        scanned(rows, verdicts, MAX_SCANNED_EMBEDDINGS as nat).len() <= MAX_SCANNED_EMBEDDINGS,
        forall|i: int|
            0 <= i < scanned(rows, verdicts, MAX_SCANNED_EMBEDDINGS as nat).len() ==> is_among(
                (#[trigger] scanned(rows, verdicts, MAX_SCANNED_EMBEDDINGS as nat)[i]).verdict,
                verdicts,
            ),
{
    lemma_scanned(rows, verdicts, MAX_SCANNED_EMBEDDINGS as nat);
}

/// The scan takes the rows of the verdicts asked for, the latest record first, and
/// no more than two thousand.
pub proof fn the_latest_rows_are_scanned(
    rows: Seq<EmbeddingView>,
    verdicts: Seq<FeedbackVerdict>,
)
    ensures
        ({
            let wanted = rows.filter(
                |r: EmbeddingView|
                    exists|i: int|
                        0 <= i < verdicts.len() && (#[trigger] verdicts[i]).label() == r.verdict,
            );
            let n = if wanted.len() <= 2_000 {
                wanted.len() as int
            } else {
                2_000
            };
            let found = scanned(rows, verdicts, MAX_SCANNED_EMBEDDINGS as nat);
            &&& found.len() == n
            &&& forall|i: int| 0 <= i < n ==> #[trigger] found[i] == wanted[wanted.len() - 1 - i]
        }),
{
    lemma_scanned_here(rows, verdicts, 2_000);
}

proof fn lemma_scanned_here(rows: Seq<EmbeddingView>, verdicts: Seq<FeedbackVerdict>, n: nat)
    ensures
        ({
            let wanted = rows.filter(
                |r: EmbeddingView|
                    exists|i: int|
                        0 <= i < verdicts.len() && (#[trigger] verdicts[i]).label() == r.verdict,
            );
            let m = if wanted.len() <= n {
                wanted.len()
            } else {
                n
            };
            let found = scanned(rows, verdicts, n);
            &&& found.len() == m
            &&& forall|i: int| 0 <= i < m ==> #[trigger] found[i] == wanted[wanted.len() - 1 - i]
        }),
    decreases rows.len(),
{
    reveal(Seq::filter);
    let asked = |r: EmbeddingView|
        exists|i: int| 0 <= i < verdicts.len() && (#[trigger] verdicts[i]).label() == r.verdict;
    if rows.len() > 0 && n > 0 {
        let rest = rows.drop_last();
        if is_among(rows.last().verdict, verdicts) {
            assert(asked(rows.last()));
            lemma_scanned_here(rest, verdicts, (n - 1) as nat);
            let wanted = rows.filter(asked);
            assert(wanted == rest.filter(asked).push(rows.last()));
            let found = scanned(rows, verdicts, n);
            let less = scanned(rest, verdicts, (n - 1) as nat);
            assert forall|i: int| 0 <= i < found.len() implies #[trigger] found[i]
                == wanted[wanted.len() - 1 - i] by {
                if i > 0 {
                    assert(found[i] == less[i - 1]);
                }
            }
        } else {
            assert(!asked(rows.last()));
            lemma_scanned_here(rest, verdicts, n);
        }
    }
}

/// What is counted are the fingerprints of the rows that were found similar.
pub proof fn similar_rows_are_matched(rows: Seq<EmbeddingView>, similar: Seq<bool>, f: Seq<char>)
    ensures
        matched(rows, similar).contains(f) <==> exists|i: int|
            0 <= i < rows.len() && i < similar.len() && similar[i] && (
            #[trigger] rows[i]).fingerprint == f,
    decreases rows.len(),
{
    if rows.len() > 0 {
        let rest = rows.drop_last();
        let last = rows.len() - 1;
        similar_rows_are_matched(rest, similar, f);
        assert(rows[last] == rows.last());
        if matched(rest, similar).contains(f) {
            let i = choose|i: int|
                0 <= i < rest.len() && i < similar.len() && similar[i] && (
                #[trigger] rest[i]).fingerprint == f;
            assert(rows[i].fingerprint == f);
        }
        text::lemma_push_contains(matched(rest, similar), rows.last().fingerprint, f);
        if exists|i: int|
            0 <= i < rows.len() && i < similar.len() && similar[i] && (
            #[trigger] rows[i]).fingerprint == f {
            let i = choose|i: int|
                0 <= i < rows.len() && i < similar.len() && similar[i] && (
                #[trigger] rows[i]).fingerprint == f;
            if i < last {
                assert(rest[i].fingerprint == f);
            }
        }
    }
}

} // verus!
