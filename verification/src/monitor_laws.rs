//! What a monitor hands on, told from the batches that it gets.
use vstd::prelude::*;

use crate::common::SubmissionModel;
use crate::monitor::{
    accessions_of, cache_valid, is_new, known_after, known_after_all, law_cache_stays_valid,
    new_submissions,
};

verus! {

/// Whether a submission of a batch is news: its number is not known, and none before it has it.
pub open spec fn is_news(known: Seq<u64>, batch: Seq<SubmissionModel>, i: int) -> bool {
    &&& 0 <= i < batch.len()
    &&& !known.contains(batch[i].accession)
    &&& forall|j: int| 0 <= j < i ==> (#[trigger] batch[j]).accession != batch[i].accession
}

/// Whether `at` names, in order, the submissions of a batch that are news.
pub open spec fn names_news(at: Seq<int>, known: Seq<u64>, batch: Seq<SubmissionModel>) -> bool {
    &&& forall|i: int, j: int| 0 <= i < j < at.len() ==> #[trigger] at[i] < #[trigger] at[j]
    &&& forall|i: int| #[trigger] at.contains(i) <==> is_news(known, batch, i)
}

/// While there is room, a cache knows what it knew and all that it was asked for.
proof fn lemma_learnt(known: Seq<u64>, max: nat, batch: Seq<SubmissionModel>)
    requires
        cache_valid(known, max),
        known.len() + batch.len() <= max,
    ensures
        ({
            let after = known_after_all(known, max, accessions_of(batch));
            &&& cache_valid(after, max)
            &&& after.len() <= known.len() + batch.len()
            &&& forall|n: u64| #[trigger]
                after.contains(n) <==> known.contains(n) || exists|j: int|
                    0 <= j < batch.len() && (#[trigger] batch[j]).accession == n
        }),
    decreases batch.len(),
{
    let numbers = accessions_of(batch);
    if batch.len() > 0 {
        let part = batch.drop_last();
        lemma_learnt(known, max, part);
        assert(numbers.drop_last() =~= accessions_of(part));
        let before = known_after_all(known, max, accessions_of(part));
        let n = batch.last().accession;
        let after = known_after(before, max, n);
        law_cache_stays_valid(before, max, n);
        assert forall|m: u64| #[trigger] after.contains(m) <==> known.contains(m) || exists|j: int|
            0 <= j < batch.len() && (#[trigger] batch[j]).accession == m by {
            assert(before.contains(m) <==> known.contains(m) || exists|j: int|
                0 <= j < part.len() && (#[trigger] part[j]).accession == m);
            if after.contains(m) {
                let k = choose|k: int| 0 <= k < after.len() && after[k] == m;
                if k < before.len() {
                    assert(before[k] == m);
                    if !known.contains(m) {
                        let j = choose|j: int|
                            0 <= j < part.len() && (#[trigger] part[j]).accession == m;
                        assert(batch[j].accession == m);
                    }
                } else {
                    assert(batch[batch.len() - 1].accession == m);
                }
            }
            if before.contains(m) {
                let k = choose|k: int| 0 <= k < before.len() && before[k] == m;
                assert(after[k] == m);
            }
            if exists|j: int| 0 <= j < batch.len() && (#[trigger] batch[j]).accession == m {
                let j = choose|j: int|
                    0 <= j < batch.len() && (#[trigger] batch[j]).accession == m;
                if j < part.len() {
                    assert(part[j].accession == m);
                }
            }
        }
    } else {
        assert(numbers =~= Seq::empty());
    }
}

proof fn lemma_news(known: Seq<u64>, max: nat, batch: Seq<SubmissionModel>) -> (at: Seq<int>)
    requires
        cache_valid(known, max),
        known.len() + batch.len() <= max,
    ensures
        names_news(at, known, batch),
        new_submissions(known, max, batch).len() == at.len(),
        forall|k: int|
            0 <= k < at.len() ==> #[trigger] new_submissions(known, max, batch)[k] == batch[at[k]],
    decreases batch.len(),
{
    if batch.len() == 0 {
        Seq::empty()
    } else {
        let part = batch.drop_last();
        let m = batch.len() - 1;
        let before = lemma_news(known, max, part);
        lemma_learnt(known, max, part);
        let old = new_submissions(known, max, part);
        let new = new_submissions(known, max, batch);
        let cached = known_after_all(known, max, accessions_of(part));
        let grows = is_new(cached, max, batch[m].accession);
        let at = if grows {
            before.push(m)
        } else {
            before
        };
        assert(is_news(known, batch, m) <==> grows) by {
            if is_news(known, batch, m) && cached.contains(batch[m].accession) {
                let j = choose|j: int|
                    0 <= j < part.len() && (#[trigger] part[j]).accession == batch[m].accession;
                assert(batch[j].accession == batch[m].accession);
            }
            if grows {
                assert forall|j: int| 0 <= j < m implies (#[trigger] batch[j]).accession
                    != batch[m].accession by {
                    assert(part[j] == batch[j]);
                }
            }
        }
        assert forall|i: int| i < m implies (#[trigger] is_news(known, batch, i) <==> is_news(
            known,
            part,
            i,
        )) by {
            if 0 <= i < m {
                assert(part[i] == batch[i]);
                if is_news(known, batch, i) {
                    assert forall|j: int| 0 <= j < i implies (#[trigger] part[j]).accession
                        != part[i].accession by {
                        assert(batch[j].accession != batch[i].accession);
                    }
                }
                if is_news(known, part, i) {
                    assert forall|j: int| 0 <= j < i implies (#[trigger] batch[j]).accession
                        != batch[i].accession by {
                        assert(part[j].accession != part[i].accession);
                    }
                }
            }
        }
        assert forall|i: int| #[trigger] at.contains(i) <==> is_news(known, batch, i) by {
            assert(before.contains(i) <==> is_news(known, part, i));
            if at.contains(i) {
                let k = choose|k: int| 0 <= k < at.len() && at[k] == i;
                if k < before.len() {
                    assert(before[k] == i);
                }
            }
            if before.contains(i) {
                let k = choose|k: int| 0 <= k < before.len() && before[k] == i;
                assert(at[k] == i);
            }
            if grows {
                assert(at[before.len() as int] == m);
            }
        }
        assert forall|i: int, j: int| 0 <= i < j < at.len() implies #[trigger] at[i]
            < #[trigger] at[j] by {
            assert(at[i] == before[i]);
            assert(before.contains(before[i]));
            if j < before.len() {
                assert(at[j] == before[j]);
            }
        }
        assert forall|k: int| 0 <= k < at.len() implies #[trigger] new[k] == batch[at[k]] by {
            if k < before.len() {
                assert(new[k] == old[k]);
                assert(before.contains(before[k]));
                assert(part[before[k]] == batch[at[k]]);
            }
        }
        at
    }
}

/// While there is room in the cache, of each batch all submissions are handed on that are news, as
/// they are and in their order, and no others.
pub proof fn law_all_news_is_handed_on(known: Seq<u64>, max: nat, batch: Seq<SubmissionModel>)
    requires
        cache_valid(known, max),
        known.len() + batch.len() <= max,
    ensures
        exists|at: Seq<int>|
            #[trigger] names_news(at, known, batch) && new_submissions(known, max, batch).len()
                == at.len() && forall|k: int|
                0 <= k < at.len() ==> #[trigger] new_submissions(known, max, batch)[k]
                    == batch[at[k]],
{
    let at = lemma_news(known, max, batch);
}

} // verus!
