//! Groups of short texts that say nearly the same. The first text of a group
//! stands for it, and a text joins the first group whose first text it is
//! alike to.

use vstd::prelude::*;

use crate::report::dedupe;
use crate::text;

verus! {

/// How alike two texts are, in a hundred, to be in one group.
pub const SIMILARITY_PERCENT: u8 = 55;

/// A text joins a group.
pub open spec fn joins(texts: Seq<Seq<char>>, cluster: Seq<usize>, i: usize) -> bool {
    dedupe::similarity_of(texts[i as int], texts[cluster[0] as int]).reaches(
        SIMILARITY_PERCENT as nat,
    )
}

/// The groups with one more text: in the first group that it joins, or in one
/// of its own.
pub open spec fn placed(clusters: Seq<Seq<usize>>, texts: Seq<Seq<char>>, i: usize) -> Seq<Seq<usize>>
    decreases clusters.len(),
{
    if clusters.len() == 0 {
        seq![seq![i]]
    } else if joins(texts, clusters[0], i) {
        seq![clusters[0].push(i)] + clusters.drop_first()
    } else {
        seq![clusters[0]] + placed(clusters.drop_first(), texts, i)
    }
}

/// The groups of the first `n` texts, by the positions of their texts.
pub open spec fn clusters_of(texts: Seq<Seq<char>>, n: nat) -> Seq<Seq<usize>>
    decreases n,
{
    if n == 0 {
        Seq::empty()
    } else {
        placed(clusters_of(texts, (n - 1) as nat), texts, (n - 1) as usize)
    }
}

proof fn lemma_placed(clusters: Seq<Seq<usize>>, texts: Seq<Seq<char>>, i: usize, k: int)
    requires
        0 <= k <= clusters.len(),
        forall|j: int| 0 <= j < k ==> !joins(texts, #[trigger] clusters[j], i),
        k < clusters.len() ==> joins(texts, clusters[k], i),
    ensures
        placed(clusters, texts, i) == if k < clusters.len() {
            clusters.update(k, clusters[k].push(i))
        } else {
            clusters.push(seq![i])
        },
    decreases clusters.len(),
{
    if clusters.len() == 0 {
        assert(placed(clusters, texts, i) =~= clusters.push(seq![i]));
    } else if k == 0 {
        assert(placed(clusters, texts, i) =~= clusters.update(0, clusters[0].push(i)));
    } else {
        let rest = clusters.drop_first();
        assert(!joins(texts, clusters[0], i));
        assert forall|j: int| 0 <= j < k - 1 implies !joins(texts, #[trigger] rest[j], i) by {
            assert(rest[j] == clusters[j + 1]);
        }
        lemma_placed(rest, texts, i, k - 1);
        if k < clusters.len() {
            assert(placed(clusters, texts, i) =~= clusters.update(k, clusters[k].push(i)));
        } else {
            assert(placed(clusters, texts, i) =~= clusters.push(seq![i]));
        }
    }
}

/// What holds of the groups of the first `n` texts: none is empty, every
/// position in them is one of a text, and every text is alike to the first of
/// its group.
pub open spec fn well_grouped(clusters: Seq<Seq<usize>>, texts: Seq<Seq<char>>, n: nat) -> bool {
    forall|c: int|
        0 <= c < clusters.len() ==> {
            &&& (#[trigger] clusters[c]).len() > 0
            &&& clusters[c].len() <= n
            &&& forall|k: int|
                0 <= k < clusters[c].len() ==> {
                    &&& (#[trigger] clusters[c][k]) < n
                    &&& k > 0 ==> joins(texts, clusters[c], clusters[c][k])
                }
        }
}

proof fn lemma_placed_well(clusters: Seq<Seq<usize>>, texts: Seq<Seq<char>>, i: usize, k: int)
    requires
        well_grouped(clusters, texts, i as nat),
        0 <= k <= clusters.len(),
        k < clusters.len() ==> joins(texts, clusters[k], i),
    ensures
        well_grouped(
            if k < clusters.len() {
                clusters.update(k, clusters[k].push(i))
            } else {
                clusters.push(seq![i])
            },
            texts,
            (i + 1) as nat,
        ),
{
    let after = if k < clusters.len() {
        clusters.update(k, clusters[k].push(i))
    } else {
        clusters.push(seq![i])
    };
    assert forall|c: int| 0 <= c < after.len() implies {
        &&& (#[trigger] after[c]).len() > 0
        &&& after[c].len() <= i + 1
        &&& forall|m: int|
            0 <= m < after[c].len() ==> {
                &&& (#[trigger] after[c][m]) < i + 1
                &&& m > 0 ==> joins(texts, after[c], after[c][m])
            }
    } by {
        if c < clusters.len() {
            let was = clusters[c];
            assert(was.len() > 0);
            assert(after[c][0] == was[0]);
            assert forall|m: int| 0 <= m < after[c].len() implies {
                &&& (#[trigger] after[c][m]) < i + 1
                &&& m > 0 ==> joins(texts, after[c], after[c][m])
            } by {
                if m < was.len() {
                    assert(after[c][m] == was[m]);
                } else {
                    assert(after[c][m] == i);
                }
            }
        } else {
            assert(after[c] == seq![i]);
        }
    }
}

/// Texts are grouped by whether they are alike: no group is empty, and every
/// text of a group is alike to its first one.
pub proof fn members_are_alike_to_the_first(texts: Seq<Seq<char>>, n: nat)
    requires
        n <= usize::MAX,
    ensures
        well_grouped(clusters_of(texts, n), texts, n),
    decreases n,
{
    if n > 0 {
        members_are_alike_to_the_first(texts, (n - 1) as nat);
        let before = clusters_of(texts, (n - 1) as nat);
        let i = (n - 1) as usize;
        let k = lemma_first_joined(before, texts, i);
        lemma_placed(before, texts, i, k);
        lemma_placed_well(before, texts, i, k);
    }
}

proof fn lemma_first_joined(clusters: Seq<Seq<usize>>, texts: Seq<Seq<char>>, i: usize) -> (k: int)
    ensures
        0 <= k <= clusters.len(),
        forall|j: int| 0 <= j < k ==> !joins(texts, #[trigger] clusters[j], i),
        k < clusters.len() ==> joins(texts, clusters[k], i),
    decreases clusters.len(),
{
    if clusters.len() == 0 || joins(texts, clusters[0], i) {
        0
    } else {
        let rest = clusters.drop_first();
        let k = lemma_first_joined(rest, texts, i);
        assert forall|j: int| 0 <= j < k + 1 implies !joins(texts, #[trigger] clusters[j], i) by {
            if j > 0 {
                assert(clusters[j] == rest[j - 1]);
            }
        }
        if k < rest.len() {
            assert(rest[k] == clusters[k + 1]);
        }
        k + 1
    }
}

/// The groups of texts, by the positions of their texts.
pub fn cluster_texts(texts: &Vec<String>) -> (clusters: Vec<Vec<usize>>)
    ensures
        text::views(clusters@) == clusters_of(text::views(texts@), texts@.len()),
        well_grouped(text::views(clusters@), text::views(texts@), texts@.len()),
{
    let ghost all = text::views(texts@);
    let mut clusters: Vec<Vec<usize>> = Vec::new();
    proof {
        assert(text::views(clusters@) =~= Seq::empty());
    }
    let mut i: usize = 0;
    while i < texts.len()
        invariant
            0 <= i <= texts@.len(),
            all == text::views(texts@),
            text::views(clusters@) == clusters_of(all, i as nat),
            well_grouped(text::views(clusters@), all, i as nat),
        decreases texts.len() - i,
    {
        let ghost before = text::views(clusters@);
        let mut k: usize = 0;
        let mut joined: bool = false;
        while k < clusters.len() && !joined
            invariant
                0 <= k <= clusters@.len(),
                i < texts@.len(),
                all == text::views(texts@),
                before == text::views(clusters@),
                well_grouped(before, all, i as nat),
                forall|j: int| 0 <= j < k ==> !joins(all, #[trigger] before[j], i),
                joined ==> k < clusters@.len() && joins(all, before[k as int], i),
            decreases clusters.len() - k + (if joined { 0int } else { 1int }),
        {
            proof {
                assert(before[k as int].len() > 0);
                assert(before[k as int][0] < i);
            }
            let first: usize = clusters[k][0];
            if dedupe::title_similarity(texts[i].as_str(), texts[first].as_str()).at_least(
                SIMILARITY_PERCENT,
            ) {
                joined = true;
            } else {
                k += 1;
            }
        }
        proof {
            lemma_placed(before, all, i, k as int);
            lemma_placed_well(before, all, i, k as int);
        }
        if joined {
            let mut cluster: Vec<usize> = clusters[k].clone();
            cluster.push(i);
            clusters.set(k, cluster);
            proof {
                assert(cluster@ =~= before[k as int].push(i));
                assert(text::views(clusters@) =~= before.update(
                    k as int,
                    before[k as int].push(i),
                ));
            }
        } else {
            let mut cluster: Vec<usize> = Vec::new();
            cluster.push(i);
            proof {
                assert(cluster@ =~= seq![i]);
                text::lemma_views_push(clusters@, cluster);
            }
            clusters.push(cluster);
        }
        i += 1;
    }
    clusters
}

/// Two texts are alike: they share 55 in a hundred of their windows.
pub open spec fn alike(a: Seq<char>, b: Seq<char>) -> bool {
    let s = dedupe::similarity_of(a, b);
    s.total > 0 && 100 * s.shared >= 55 * s.total
}

/// Where a text goes: into the first cluster whose first text it is alike to, at
/// its end, and into a cluster of its own, behind the others, without one.
proof fn lemma_place(clusters: Seq<Seq<usize>>, texts: Seq<Seq<char>>, i: usize) -> (p: int)
    ensures
        0 <= p <= clusters.len(),
        forall|d: int|
            0 <= d < p ==> !alike(texts[i as int], texts[(#[trigger] clusters[d])[0] as int]),
        p < clusters.len() ==> alike(texts[i as int], texts[clusters[p][0] as int]) && placed(
            clusters,
            texts,
            i,
        ) == clusters.update(p, clusters[p].push(i)),
        p == clusters.len() ==> placed(clusters, texts, i) == clusters.push(seq![i]),
    decreases clusters.len(),
{
    if clusters.len() == 0 {
        assert(placed(clusters, texts, i) =~= clusters.push(seq![i]));
        0
    } else if joins(texts, clusters[0], i) {
        assert(placed(clusters, texts, i) =~= clusters.update(0, clusters[0].push(i)));
        0
    } else {
        let rest = clusters.drop_first();
        let q = lemma_place(rest, texts, i);
        assert forall|d: int| 0 <= d < q + 1 implies !alike(
            texts[i as int],
            texts[(#[trigger] clusters[d])[0] as int],
        ) by {
            if d > 0 {
                assert(rest[d - 1] == clusters[d]);
            }
        }
        if q < rest.len() {
            assert(rest[q] == clusters[q + 1]);
            assert(placed(clusters, texts, i) =~= clusters.update(q + 1, clusters[q + 1].push(i)));
        } else {
            assert(placed(clusters, texts, i) =~= clusters.push(seq![i]));
        }
        q + 1
    }
}

/// Every text stands in one cluster and in one place. It is alike to the first text
/// of its cluster, where it is not that text itself, and to the first text of no
/// cluster in front of it. A cluster keeps the order of the texts.
pub proof fn texts_join_the_first_that_is_alike(texts: Seq<Seq<char>>, n: nat)
    requires
        n <= usize::MAX,
    ensures
        ({
            let all = clusters_of(texts, n);
            &&& forall|c: int| 0 <= c < all.len() ==> (#[trigger] all[c]).len() > 0
            &&& forall|c: int, k: int|
                #![trigger all[c][k]]
                0 <= c < all.len() && 0 < k < all[c].len() ==> alike(
                    texts[all[c][k] as int],
                    texts[all[c][0] as int],
                )
            &&& forall|c: int, k: int, d: int|
                #![trigger all[c][k], all[d]]
                0 <= d < c < all.len() && 0 <= k < all[c].len() ==> !alike(
                    texts[all[c][k] as int],
                    texts[all[d][0] as int],
                )
            &&& forall|c: int, k: int, l: int|
                #![trigger all[c][k], all[c][l]]
                0 <= c < all.len() && 0 <= k < l < all[c].len() ==> all[c][k] < all[c][l]
            &&& forall|c: int, k: int, d: int, l: int|
                #![trigger all[c][k], all[d][l]]
                0 <= c < all.len() && 0 <= k < all[c].len() && 0 <= d < all.len() && 0 <= l
                    < all[d].len() && all[c][k] == all[d][l] ==> c == d && k == l
            &&& forall|c: int, k: int|
                #![trigger all[c][k]]
                0 <= c < all.len() && 0 <= k < all[c].len() ==> all[c][k] < n
        }),
        forall|i: usize| i < n ==> #[trigger] stands(clusters_of(texts, n), i),
    decreases n,
{
    let all = clusters_of(texts, n);
    if n > 0 {
        let was = clusters_of(texts, (n - 1) as nat);
        let i = (n - 1) as usize;
        texts_join_the_first_that_is_alike(texts, (n - 1) as nat);
        let p = lemma_place(was, texts, i);
        assert forall|j: usize| j < n implies #[trigger] stands(all, j) by {
            if j == i {
                if p < was.len() {
                    assert(all[p][was[p].len() as int] == j);
                } else {
                    assert(all[p][0] == j);
                }
            } else {
                assert(stands(was, j));
                let (c, k) = choose|c: int, k: int|
                    #![trigger was[c][k]]
                    0 <= c < was.len() && 0 <= k < was[c].len() && was[c][k] == j;
                assert(all[c][k] == j);
            }
        }
    }
}

/// A text stands in a cluster.
pub open spec fn stands(clusters: Seq<Seq<usize>>, i: usize) -> bool {
    exists|c: int, k: int|
        #![trigger clusters[c][k]]
        0 <= c < clusters.len() && 0 <= k < clusters[c].len() && clusters[c][k] == i
}

} // verus!
