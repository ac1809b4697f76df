//! Watching for new filings: which were seen, and what to do next.
use indexmap::IndexSet;
use vstd::prelude::*;

use crate::collections::turned_round;
use crate::common::{submission_models, Submission, SubmissionModel};
use crate::parse_index_page::CalendarDate;

verus! {

/// How many accession numbers a cache holds unless it is told otherwise.
pub const MAX_ACCESSIONS: usize = 50000;

// ---------------------------------------------------------------------------
// The accession numbers that were seen
// ---------------------------------------------------------------------------

/// The numbers in a set, in the order in which they came.
pub uninterp spec fn set_numbers(s: IndexSet<u64>) -> Seq<u64>;

/// `IndexSet::new`: no numbers.
#[verifier::external_body]
fn new_set() -> (s: IndexSet<u64>)
    ensures
        set_numbers(s) == Seq::<u64>::empty(),
{
    IndexSet::new()
}

/// `IndexSet::contains`: whether the number is there.
#[verifier::external_body]
fn set_has(s: &IndexSet<u64>, n: u64) -> (r: bool)
    ensures
        r == set_numbers(*s).contains(n),
{
    s.contains(&n)
}

/// `IndexSet::len`: how many numbers there are.
#[verifier::external_body]
fn set_len(s: &IndexSet<u64>) -> (n: usize)
    ensures
        n == set_numbers(*s).len(),
{
    s.len()
}

/// `IndexSet::shift_remove_index`: the number at the place goes, the others keep their order; at a
/// place beyond the end nothing happens.
#[verifier::external_body]
fn set_remove_at(s: &mut IndexSet<u64>, i: usize)
    ensures
        set_numbers(*final(s)) == (if i < set_numbers(*old(s)).len() {
            set_numbers(*old(s)).remove(i as int)
        } else {
            set_numbers(*old(s))
        }),
{
    s.shift_remove_index(i);
}

/// `IndexSet::insert`: a number that is not there comes last.
#[verifier::external_body]
fn set_insert(s: &mut IndexSet<u64>, n: u64)
    ensures
        set_numbers(*final(s)) == (if set_numbers(*old(s)).contains(n) {
            set_numbers(*old(s))
        } else {
            set_numbers(*old(s)).push(n)
        }),
{
    s.insert(n);
}

/// Whether a cache of the given size takes in a number.
pub open spec fn is_new(known: Seq<u64>, max: nat, n: u64) -> bool {
    max > 0 && !known.contains(n)
}

/// The numbers that a cache knows after it was asked for one: a new one comes last, and where
/// there is no room the oldest goes.
pub open spec fn known_after(known: Seq<u64>, max: nat, n: u64) -> Seq<u64> {
    if !is_new(known, max, n) {
        known
    } else if known.len() >= max {
        known.drop_first().push(n)
    } else {
        known.push(n)
    }
}

/// What a cache knows after it was asked for all the given numbers.
pub open spec fn known_after_all(known: Seq<u64>, max: nat, numbers: Seq<u64>) -> Seq<u64>
    decreases numbers.len(),
{
    if numbers.len() == 0 {
        known
    } else {
        known_after(known_after_all(known, max, numbers.drop_last()), max, numbers.last())
    }
}

/// What a cache of the given size can know: no number twice, and no more than there is room for.
pub open spec fn cache_valid(known: Seq<u64>, max: nat) -> bool {
    known.no_duplicates() && known.len() <= max
}

/// A cache never knows a number twice, nor more numbers than there is room for.
pub proof fn law_cache_stays_valid(known: Seq<u64>, max: nat, n: u64)
    requires
        cache_valid(known, max),
    ensures
        cache_valid(known_after(known, max, n), max),
        max > 0 ==> known_after(known, max, n).contains(n),
{
    let after = known_after(known, max, n);
    if is_new(known, max, n) {
        let kept = if known.len() >= max {
            known.drop_first()
        } else {
            known
        };
        assert forall|i: int| 0 <= i < kept.len() implies kept[i] != n by {
            if known.len() >= max {
                assert(kept[i] == known[i + 1]);
            }
        }
        assert(after == kept.push(n));
        assert(after[kept.len() as int] == n);
    }
}

/// A number that was asked for is not new when it is asked for again at once.
pub proof fn law_second_time_is_not_new(known: Seq<u64>, max: nat, n: u64)
    requires
        cache_valid(known, max),
    ensures
        !is_new(known_after(known, max, n), max, n),
{
    law_cache_stays_valid(known, max, n);
}

proof fn lemma_number_stays(known: Seq<u64>, max: nat, i: int, numbers: Seq<u64>)
    requires
        cache_valid(known, max),
        0 <= i < known.len(),
        known.len() - i + numbers.len() <= max,
    ensures
        ({
            let after = known_after_all(known, max, numbers);
            &&& cache_valid(after, max)
            &&& exists|j: int|
                0 <= j < after.len() && #[trigger] after[j] == known[i] && after.len() - j
                    <= known.len() - i + numbers.len()
        }),
    decreases numbers.len(),
{
    if numbers.len() == 0 {
        assert(known_after_all(known, max, numbers)[i] == known[i]);
    } else {
        lemma_number_stays(known, max, i, numbers.drop_last());
        let before = known_after_all(known, max, numbers.drop_last());
        let j = choose|j: int|
            0 <= j < before.len() && #[trigger] before[j] == known[i] && before.len() - j
                <= known.len() - i + numbers.drop_last().len();
        let n = numbers.last();
        law_cache_stays_valid(before, max, n);
        let after = known_after(before, max, n);
        assert(after == known_after_all(known, max, numbers));
        if is_new(before, max, n) && before.len() >= max {
            assert(j >= 1);
            assert(before.drop_first()[j - 1] == before[j]);
            assert(after[j - 1] == known[i] && after.len() == before.len());
        } else {
            assert(after[j] == known[i] && after.len() <= before.len() + 1);
        }
    }
}

/// A number is remembered for as long as fewer others than there is room for were asked for
/// since.
pub proof fn law_recent_numbers_are_known(known: Seq<u64>, max: nat, n: u64, others: Seq<u64>)
    requires
        cache_valid(known, max),
        is_new(known, max, n),
        others.len() < max,
    ensures
        known_after_all(known_after(known, max, n), max, others).contains(n),
{
    law_cache_stays_valid(known, max, n);
    let with_n = known_after(known, max, n);
    assert(with_n.last() == n);
    lemma_number_stays(with_n, max, with_n.len() - 1, others);
}

/// The accession numbers that were seen last.
pub struct AccessionCache {
    accessions: IndexSet<u64>,
    max_accessions: usize,
}

impl AccessionCache {
    /// The numbers that the cache knows, the oldest first.
    pub closed spec fn known(self) -> Seq<u64> {
        set_numbers(self.accessions)
    }

    /// How many numbers the cache has room for.
    pub closed spec fn max(self) -> nat {
        self.max_accessions as nat
    }

    pub open spec fn wf(self) -> bool {
        cache_valid(self.known(), self.max())
    }

    pub fn new(max_accessions: usize) -> (cache: Self)
        ensures
            cache.wf(),
            cache.known() == Seq::<u64>::empty(),
            cache.max() == max_accessions,
    {
        AccessionCache { accessions: new_set(), max_accessions }
    }

    /// Whether a number is new. If it is, it is known from now on. A cache without room takes
    /// nothing for new.
    pub fn check_and_insert(&mut self, accession: u64) -> (new: bool)
        requires
            old(self).wf(),
        ensures
            final(self).wf(),
            final(self).max() == old(self).max(),
            new == is_new(old(self).known(), old(self).max(), accession),
            final(self).known() == known_after(old(self).known(), old(self).max(), accession),
    {
        let ghost before = self.known();
        proof {
            law_cache_stays_valid(before, self.max(), accession);
        }
        if self.max_accessions == 0 {
            return false;
        }
        if set_has(&self.accessions, accession) {
            return false;
        }
        if set_len(&self.accessions) >= self.max_accessions {
            set_remove_at(&mut self.accessions, 0);
            assert(set_numbers(self.accessions) =~= before.drop_first());
        }
        assert(!set_numbers(self.accessions).contains(accession)) by {
            if set_numbers(self.accessions).contains(accession) {
                let kept = set_numbers(self.accessions);
                let i = choose|i: int| 0 <= i < kept.len() && kept[i] == accession;
                assert(before.contains(accession)) by {
                    if kept.len() < before.len() {
                        assert(before[i + 1] == accession);
                    } else {
                        assert(before[i] == accession);
                    }
                }
            }
        }
        set_insert(&mut self.accessions, accession);
        true
    }

    /// The submissions of a batch that are new; they are known from now on.
    pub fn filter_new(&mut self, batch: Vec<Submission>) -> (new: Vec<Submission>)
        requires
            old(self).wf(),
        ensures
            final(self).wf(),
            final(self).max() == old(self).max(),
            submission_models(new@) == new_submissions(
                old(self).known(),
                old(self).max(),
                submission_models(batch@),
            ),
            final(self).known() == known_after_all(
                old(self).known(),
                old(self).max(),
                accessions_of(submission_models(batch@)),
            ),
    {
        let ghost start = self.known();
        let ghost max = self.max();
        let ghost models = submission_models(batch@);
        let ghost numbers = accessions_of(models);
        let ghost total = batch@.len();
        let mut rest = turned_round(batch);
        let mut new: Vec<Submission> = Vec::new();
        assert(submission_models(new@) =~= new_submissions(start, max, models.take(0)));
        assert(numbers.take(0) =~= Seq::empty());
        while rest.len() > 0
            invariant
                self.wf(),
                self.max() == max,
                rest@.len() <= total == models.len(),
                numbers == accessions_of(models),
                forall|k: int|
                    0 <= k < rest@.len() ==> (#[trigger] rest@[k])@ == models[total - 1 - k],
                submission_models(new@) == new_submissions(
                    start,
                    max,
                    models.take(total - rest@.len()),
                ),
                self.known() == known_after_all(start, max, numbers.take(total - rest@.len())),
            decreases rest@.len(),
        {
            let ghost done = total - rest@.len();
            let ghost earlier = new@;
            match rest.pop() {
                Some(submission) => {
                    let ghost s = submission@;
                    proof {
                        assert(s == models[done]);
                        assert(models.take(done + 1).drop_last() =~= models.take(done));
                        assert(models.take(done + 1).last() == s);
                        assert(accessions_of(models.take(done)) =~= numbers.take(done));
                        assert(numbers.take(done + 1).drop_last() =~= numbers.take(done));
                        assert(numbers.take(done + 1).last() == s.accession);
                    }
                    if self.check_and_insert(submission.accession) {
                        new.push(submission);
                        assert(submission_models(new@) =~= submission_models(earlier).push(s));
                    }
                },
                None => {},
            }
        }
        assert(models.take(total as int) =~= models);
        assert(numbers.take(total as int) =~= numbers);
        new
    }

    /// The submissions of a batch to hand on: those that are new, or nothing where none is. They
    /// are known from now on.
    pub fn take_new(&mut self, batch: Vec<Submission>) -> (emitted: Option<Vec<Submission>>)
        requires
            old(self).wf(),
        ensures
            final(self).wf(),
            final(self).max() == old(self).max(),
            ({
                let new = new_submissions(
                    old(self).known(),
                    old(self).max(),
                    submission_models(batch@),
                );
                match emitted {
                    Some(e) => e@.len() > 0 && submission_models(e@) == new,
                    None => new.len() == 0,
                }
            }),
            final(self).known() == known_after_all(
                old(self).known(),
                old(self).max(),
                accessions_of(submission_models(batch@)),
            ),
    {
        let new = self.filter_new(batch);
        if new.len() == 0 {
            None
        } else {
            Some(new)
        }
    }

    /// The submissions of a poll to hand on; `None` stands for a poll that failed. A failed poll
    /// gives nothing and leaves the cache as it is.
    pub fn take_polled(&mut self, polled: Option<Vec<Submission>>) -> (emitted: Option<
        Vec<Submission>,
    >)
        requires
            old(self).wf(),
        ensures
            final(self).wf(),
            final(self).max() == old(self).max(),
            ({
                let batch = polled_batch(opt_submissions(polled));
                let new = new_submissions(old(self).known(), old(self).max(), batch);
                &&& match emitted {
                    Some(e) => e@.len() > 0 && submission_models(e@) == new,
                    None => new.len() == 0,
                }
                &&& final(self).known() == known_after_all(
                    old(self).known(),
                    old(self).max(),
                    accessions_of(batch),
                )
            }),
            polled is None ==> emitted is None && final(self).known() == old(self).known(),
    {
        match polled {
            Some(batch) => self.take_new(batch),
            None => {
                assert(accessions_of(Seq::empty()) =~= Seq::<u64>::empty());
                None
            },
        }
    }
}

impl Default for AccessionCache {
    fn default() -> (cache: Self)
        ensures
            cache.wf(),
            cache.known() == Seq::<u64>::empty(),
            cache.max() == MAX_ACCESSIONS,
    {
        AccessionCache::new(MAX_ACCESSIONS)
    }
}

pub open spec fn accessions_of(s: Seq<SubmissionModel>) -> Seq<u64> {
    s.map_values(|x: SubmissionModel| x.accession)
}

/// The submissions of a batch that are new to a cache: each is checked against what the cache
/// knows after those before it.
pub open spec fn new_submissions(known: Seq<u64>, max: nat, batch: Seq<SubmissionModel>) -> Seq<
    SubmissionModel,
>
    decreases batch.len(),
{
    if batch.len() == 0 {
        Seq::empty()
    } else {
        let earlier = new_submissions(known, max, batch.drop_last());
        let before = known_after_all(known, max, accessions_of(batch.drop_last()));
        if is_new(before, max, batch.last().accession) {
            earlier.push(batch.last())
        } else {
            earlier
        }
    }
}

pub open spec fn opt_submissions(batch: Option<Vec<Submission>>) -> Option<Seq<SubmissionModel>> {
    match batch {
        Some(b) => Some(submission_models(b@)),
        None => None,
    }
}

/// The batch that a poll gives: none at all where it failed.
pub open spec fn polled_batch(polled: Option<Seq<SubmissionModel>>) -> Seq<SubmissionModel> {
    match polled {
        Some(batch) => batch,
        None => Seq::empty(),
    }
}

/// A cache while batches are filtered by it: what it knows, and what was handed on.
pub struct FeedModel {
    pub known: Seq<u64>,
    pub emitted: Seq<Seq<SubmissionModel>>,
}

/// A cache after the given batches; of a batch with nothing new nothing is handed on.
pub open spec fn feed_after(
    known: Seq<u64>,
    max: nat,
    batches: Seq<Seq<SubmissionModel>>,
) -> FeedModel
    decreases batches.len(),
{
    if batches.len() == 0 {
        FeedModel { known, emitted: Seq::empty() }
    } else {
        let before = feed_after(known, max, batches.drop_last());
        let new = new_submissions(before.known, max, batches.last());
        FeedModel {
            known: known_after_all(before.known, max, accessions_of(batches.last())),
            emitted: if new.len() > 0 {
                before.emitted.push(new)
            } else {
                before.emitted
            },
        }
    }
}

/// All the numbers that a cache knows or is asked for.
pub open spec fn numbers_met(known: Seq<u64>, batches: Seq<Seq<SubmissionModel>>) -> Set<u64> {
    known.to_set() + accessions_of(batches.flatten()).to_set()
}

/// While there is room for all numbers, a cache learns what is new and forgets nothing.
proof fn lemma_batch_is_learnt(
    known: Seq<u64>,
    max: nat,
    batch: Seq<SubmissionModel>,
    all: Set<u64>,
)
    requires
        cache_valid(known, max),
        all.finite(),
        all.len() <= max,
        known.to_set().subset_of(all),
        accessions_of(batch).to_set().subset_of(all),
    ensures
        ({
            let after = known_after_all(known, max, accessions_of(batch));
            &&& after == known + accessions_of(new_submissions(known, max, batch))
            &&& after.no_duplicates()
            &&& after.to_set().subset_of(all)
            &&& after.len() <= max
        }),
    decreases batch.len(),
{
    let numbers = accessions_of(batch);
    let after = known_after_all(known, max, numbers);
    if batch.len() == 0 {
        assert(after =~= known + accessions_of(new_submissions(known, max, batch)));
    } else {
        let rest = batch.drop_last();
        assert(numbers.drop_last() =~= accessions_of(rest));
        assert forall|n: u64| accessions_of(rest).to_set().contains(n) implies all.contains(n) by {
            let i = choose|i: int| 0 <= i < rest.len() && accessions_of(rest)[i] == n;
            assert(numbers[i] == n);
            assert(numbers.to_set().contains(n));
        }
        lemma_batch_is_learnt(known, max, rest, all);
        let before = known_after_all(known, max, accessions_of(rest));
        let n = batch.last().accession;
        assert(numbers.last() == n);
        assert(numbers[batch.len() - 1] == n);
        assert(numbers.to_set().contains(n));
        let earlier = new_submissions(known, max, rest);
        if is_new(before, max, n) {
            let more = before.push(n);
            assert(more.no_duplicates());
            assert forall|m: u64| more.to_set().contains(m) implies all.contains(m) by {
                let i = choose|i: int| 0 <= i < more.len() && more[i] == m;
                if i < before.len() {
                    assert(before[i] == m);
                    assert(before.to_set().contains(m));
                }
            }
            more.unique_seq_to_set();
            vstd::set_lib::lemma_len_subset(more.to_set(), all);
            assert(before.len() < max);
            assert(accessions_of(earlier.push(batch.last())) =~= accessions_of(earlier).push(n));
            assert(after =~= known + accessions_of(new_submissions(known, max, batch)));
        }
    }
}

proof fn lemma_feed(known: Seq<u64>, max: nat, batches: Seq<Seq<SubmissionModel>>, all: Set<u64>)
    requires
        cache_valid(known, max),
        all.finite(),
        all.len() <= max,
        known.to_set().subset_of(all),
        accessions_of(batches.flatten()).to_set().subset_of(all),
    ensures
        ({
            let feed = feed_after(known, max, batches);
            &&& feed.known == known + accessions_of(feed.emitted.flatten())
            &&& cache_valid(feed.known, max)
            &&& feed.known.to_set().subset_of(all)
            &&& forall|i: int|
                0 <= i < feed.emitted.len() ==> (#[trigger] feed.emitted[i]).len() > 0
        }),
    decreases batches.len(),
{
    let feed = feed_after(known, max, batches);
    if batches.len() == 0 {
        assert(feed.emitted.flatten() =~= Seq::empty());
        assert(feed.known =~= known + accessions_of(feed.emitted.flatten()));
    } else {
        let rest = batches.drop_last();
        let batch = batches.last();
        rest.lemma_flatten_push(batch);
        assert(rest.push(batch) =~= batches);
        let numbers = accessions_of(batches.flatten());
        let n = rest.flatten().len();
        let earlier = accessions_of(rest.flatten());
        assert forall|m: u64| earlier.to_set().contains(m) implies all.contains(m) by {
            let i = choose|i: int| 0 <= i < n && earlier[i] == m;
            assert(numbers[i] == m);
            assert(numbers.to_set().contains(m));
        }
        assert forall|m: u64| accessions_of(batch).to_set().contains(m) implies all.contains(m) by {
            let i = choose|i: int| 0 <= i < batch.len() && accessions_of(batch)[i] == m;
            assert(numbers[n + i] == m);
            assert(numbers.to_set().contains(m));
        }
        lemma_feed(known, max, rest, all);
        let before = feed_after(known, max, rest);
        lemma_batch_is_learnt(before.known, max, batch, all);
        let new = new_submissions(before.known, max, batch);
        before.emitted.lemma_flatten_push(new);
        let flat = before.emitted.flatten();
        assert(accessions_of(flat + new) =~= accessions_of(flat) + accessions_of(new));
        assert(known + (accessions_of(flat) + accessions_of(new)) =~= (known + accessions_of(flat))
            + accessions_of(new));
        if new.len() == 0 {
            assert(flat + new =~= flat);
        }
        assert forall|i: int| 0 <= i < feed.emitted.len() implies (
        #[trigger] feed.emitted[i]).len() > 0 by {
            if i < before.emitted.len() {
                assert(feed.emitted[i] == before.emitted[i]);
            }
        }
    }
}

/// Over any batches, as long as the cache has room for all the numbers that it meets, no number is
/// handed on twice, none that was known at the start is handed on, and nothing empty is. What was
/// handed on is known at the end.
pub proof fn law_nothing_is_emitted_twice(
    known: Seq<u64>,
    max: nat,
    batches: Seq<Seq<SubmissionModel>>,
)
    requires
        cache_valid(known, max),
        numbers_met(known, batches).len() <= max,
    ensures
        ({
            let feed = feed_after(known, max, batches);
            let emitted = accessions_of(feed.emitted.flatten());
            &&& emitted.no_duplicates()
            &&& forall|i: int|
                0 <= i < emitted.len() ==> !known.contains(#[trigger] emitted[i])
            &&& feed.known == known + emitted
            &&& forall|i: int|
                0 <= i < feed.emitted.len() ==> (#[trigger] feed.emitted[i]).len() > 0
        }),
{
    let all = numbers_met(known, batches);
    vstd::seq_lib::seq_to_set_is_finite(known);
    vstd::seq_lib::seq_to_set_is_finite(accessions_of(batches.flatten()));
    lemma_feed(known, max, batches, all);
    let feed = feed_after(known, max, batches);
    let emitted = accessions_of(feed.emitted.flatten());
    assert forall|i: int, j: int| 0 <= i < emitted.len() && 0 <= j < emitted.len() && i
        != j implies emitted[i] != emitted[j] by {
        assert(feed.known[known.len() + i] == emitted[i]);
        assert(feed.known[known.len() + j] == emitted[j]);
    }
    assert forall|i: int| 0 <= i < emitted.len() implies !known.contains(
        #[trigger] emitted[i],
    ) by {
        assert(feed.known[known.len() + i] == emitted[i]);
        if known.contains(emitted[i]) {
            let j = choose|j: int| 0 <= j < known.len() && known[j] == emitted[i];
            assert(feed.known[j] == known[j]);
        }
    }
}

/// A failed poll hands nothing on and does not change what is handed on later.
pub proof fn law_failed_polls_change_nothing(
    known: Seq<u64>,
    max: nat,
    before: Seq<Seq<SubmissionModel>>,
    after: Seq<Seq<SubmissionModel>>,
)
    ensures
        feed_after(known, max, before.push(polled_batch(None)) + after) == feed_after(
            known,
            max,
            before + after,
        ),
    decreases after.len(),
{
    let failed = before.push(polled_batch(None)) + after;
    let all = before + after;
    if after.len() == 0 {
        assert(failed =~= before.push(polled_batch(None)));
        assert(all =~= before);
        assert(failed.drop_last() =~= before);
        assert(accessions_of(polled_batch(None)) =~= Seq::<u64>::empty());
    } else {
        law_failed_polls_change_nothing(known, max, before, after.drop_last());
        assert(failed.drop_last() =~= before.push(polled_batch(None)) + after.drop_last());
        assert(all.drop_last() =~= before + after.drop_last());
    }
}

// ---------------------------------------------------------------------------
// Settings
// ---------------------------------------------------------------------------

/// How filings are watched for.
pub struct Monitor {
    pub polling_interval_ms: u64,
    pub validation_interval_ms: u64,
    pub start_date: Option<CalendarDate>,
    pub use_rss: bool,
    pub use_efts: bool,
    pub accession_cache: Option<AccessionCache>,
}

impl Default for Monitor {
    fn default() -> (m: Self)
        ensures
            m.polling_interval_ms == 200,
            m.validation_interval_ms == 60000,
            m.start_date is None,
            m.use_rss,
            m.use_efts,
            m.accession_cache is None,
    {
        Monitor {
            polling_interval_ms: 200,
            validation_interval_ms: 60000,
            start_date: None,
            use_rss: true,
            use_efts: true,
            accession_cache: None,
        }
    }
}

/// The settings of a monitor that can run.
pub struct MonitorPlan {
    pub polling_interval_ms: u64,
    pub validation_interval_ms: u64,
    pub start_date: Option<CalendarDate>,
    pub use_rss: bool,
    pub use_efts: bool,
    pub accession_cache: AccessionCache,
}

impl Monitor {
    pub fn new() -> (m: Self)
        ensures
            m.polling_interval_ms == 200,
            m.validation_interval_ms == 60000,
            m.start_date is None,
            m.use_rss,
            m.use_efts,
            m.accession_cache is None,
    {
        Monitor::default()
    }

    pub fn polling_interval_ms(self, ms: u64) -> (m: Self)
        ensures
            m == (Monitor { polling_interval_ms: ms, ..self }),
    {
        Monitor { polling_interval_ms: ms, ..self }
    }

    pub fn validation_interval_ms(self, ms: u64) -> (m: Self)
        ensures
            m == (Monitor { validation_interval_ms: ms, ..self }),
    {
        Monitor { validation_interval_ms: ms, ..self }
    }

    pub fn start_date(self, date: CalendarDate) -> (m: Self)
        ensures
            m == (Monitor { start_date: Some(date), ..self }),
    {
        Monitor { start_date: Some(date), ..self }
    }

    pub fn use_rss(self, val: bool) -> (m: Self)
        ensures
            m == (Monitor { use_rss: val, ..self }),
    {
        Monitor { use_rss: val, ..self }
    }

    pub fn use_efts(self, val: bool) -> (m: Self)
        ensures
            m == (Monitor { use_efts: val, ..self }),
    {
        Monitor { use_efts: val, ..self }
    }

    pub fn with_cache(self, cache: AccessionCache) -> (m: Self)
        ensures
            m == (Monitor { accession_cache: Some(cache), ..self }),
    {
        Monitor { accession_cache: Some(cache), ..self }
    }

    /// The settings as they stand, with an empty cache of the usual size where none was given. At
    /// least one source has to be used.
    pub fn build(self) -> (plan: MonitorPlan)
        requires
            self.use_rss || self.use_efts,
            self.accession_cache matches Some(c) ==> c.wf(),
        ensures
            plan.polling_interval_ms == self.polling_interval_ms,
            plan.validation_interval_ms == self.validation_interval_ms,
            plan.start_date == self.start_date,
            plan.use_rss == self.use_rss,
            plan.use_efts == self.use_efts,
            plan.accession_cache.wf(),
            match self.accession_cache {
                Some(c) => plan.accession_cache == c,
                None => plan.accession_cache.known() == Seq::<u64>::empty()
                    && plan.accession_cache.max() == MAX_ACCESSIONS,
            },
    {
        let accession_cache = match self.accession_cache {
            Some(c) => c,
            None => AccessionCache::default(),
        };
        MonitorPlan {
            polling_interval_ms: self.polling_interval_ms,
            validation_interval_ms: self.validation_interval_ms,
            start_date: self.start_date,
            use_rss: self.use_rss,
            use_efts: self.use_efts,
            accession_cache,
        }
    }
}

// ---------------------------------------------------------------------------
// What to do next
// ---------------------------------------------------------------------------

/// What a monitor does next.
#[derive(Debug, Clone, Copy, PartialEq, Eq, Structural)]
pub enum MonitorAction {
    /// Fetch the filings of the day.
    Validate,
    /// Read the feed.
    Poll,
    /// Wait.
    Sleep { seconds: u64, nanos: u32 },
}

/// When a monitor last did what. Times are in nanoseconds since it started; what was done before
/// has a negative time.
#[derive(Debug, Clone, Copy)]
pub struct Schedule {
    poll_interval: i128,
    validation_interval: i128,
    last_poll: i128,
    last_validation: i128,
    use_rss: bool,
    use_efts: bool,
}

pub struct ScheduleModel {
    pub poll_interval: int,
    pub validation_interval: int,
    pub last_poll: int,
    pub last_validation: int,
    pub use_rss: bool,
    pub use_efts: bool,
}

pub const NANOS_PER_MILLI: i128 = 1000000;

pub const NANOS_PER_SECOND: i128 = 1000000000;

/// Whether an interval has gone by.
pub open spec fn is_due(last: int, interval: int, now: int) -> bool {
    interval <= 0 || now - last >= interval
}

impl ScheduleModel {
    pub open spec fn validation_due(self, now: int) -> bool {
        self.use_efts && is_due(self.last_validation, self.validation_interval, now)
    }

    pub open spec fn poll_due(self, now: int) -> bool {
        self.use_rss && is_due(self.last_poll, self.poll_interval, now)
    }

    /// When the next thing is to be done.
    pub open spec fn wake(self) -> int {
        let poll = self.last_poll + self.poll_interval;
        let validation = self.last_validation + self.validation_interval;
        if self.use_rss && (!self.use_efts || poll <= validation) {
            poll
        } else {
            validation
        }
    }
}

impl Schedule {
    pub closed spec fn view(self) -> ScheduleModel {
        ScheduleModel {
            poll_interval: self.poll_interval as int,
            validation_interval: self.validation_interval as int,
            last_poll: self.last_poll as int,
            last_validation: self.last_validation as int,
            use_rss: self.use_rss,
            use_efts: self.use_efts,
        }
    }

    pub open spec fn wf(self) -> bool {
        let limit = u64::MAX * NANOS_PER_MILLI;
        &&& 0 <= self@.poll_interval <= limit
        &&& 0 <= self@.validation_interval <= limit
        &&& -limit <= self@.last_poll <= u64::MAX
        &&& -limit <= self@.last_validation <= u64::MAX
        &&& self@.use_rss || self@.use_efts
    }

    /// A schedule on which both are due at once, or after their intervals where the clock cannot
    /// say what was an interval ago.
    pub fn new(
        polling_interval_ms: u64,
        validation_interval_ms: u64,
        use_rss: bool,
        use_efts: bool,
        poll_at_once: bool,
        validate_at_once: bool,
    ) -> (s: Self)
        requires
            use_rss || use_efts,
        ensures
            s.wf(),
            s@.poll_interval == polling_interval_ms * NANOS_PER_MILLI,
            s@.validation_interval == validation_interval_ms * NANOS_PER_MILLI,
            s@.use_rss == use_rss,
            s@.use_efts == use_efts,
            s@.last_poll == (if poll_at_once {
                -s@.poll_interval
            } else {
                0
            }),
            s@.last_validation == (if validate_at_once {
                -s@.validation_interval
            } else {
                0
            }),
    {
        let poll_interval = polling_interval_ms as i128 * NANOS_PER_MILLI;
        let validation_interval = validation_interval_ms as i128 * NANOS_PER_MILLI;
        Schedule {
            poll_interval,
            validation_interval,
            last_poll: if poll_at_once {
                -poll_interval
            } else {
                0
            },
            last_validation: if validate_at_once {
                -validation_interval
            } else {
                0
            },
            use_rss,
            use_efts,
        }
    }

    /// What to do now: a validation that is due goes before a poll that is due; where neither
    /// is, the monitor sleeps until one is.
    pub fn next_action(&self, now: u64) -> (action: MonitorAction)
        requires
            self.wf(),
        ensures
            match action {
                MonitorAction::Validate => self@.validation_due(now as int),
                MonitorAction::Poll => !self@.validation_due(now as int) && self@.poll_due(
                    now as int,
                ),
                MonitorAction::Sleep { seconds, nanos } => {
                    &&& !self@.validation_due(now as int)
                    &&& !self@.poll_due(now as int)
                    &&& nanos < NANOS_PER_SECOND
                    &&& now + seconds * NANOS_PER_SECOND + nanos == self@.wake()
                },
            },
    {
        let now = now as i128;
        if self.use_efts && (self.validation_interval <= 0 || now - self.last_validation
            >= self.validation_interval) {
            return MonitorAction::Validate;
        }
        if self.use_rss && (self.poll_interval <= 0 || now - self.last_poll >= self.poll_interval) {
            return MonitorAction::Poll;
        }
        let poll = self.last_poll + self.poll_interval;
        let validation = self.last_validation + self.validation_interval;
        let wake = if self.use_rss && (!self.use_efts || poll <= validation) {
            poll
        } else {
            validation
        };
        let wait: i128 = wake - now;
        assert(wait > 0);
        let seconds = wait / NANOS_PER_SECOND;
        let nanos = wait % NANOS_PER_SECOND;
        MonitorAction::Sleep { seconds: seconds as u64, nanos: nanos as u32 }
    }

    /// Notes that a validation was done.
    pub fn validated(&mut self, now: u64)
        requires
            old(self).wf(),
        ensures
            final(self).wf(),
            final(self)@ == (ScheduleModel { last_validation: now as int, ..old(self)@ }),
    {
        self.last_validation = now as i128;
    }

    /// Notes that a poll was done.
    pub fn polled(&mut self, now: u64)
        requires
            old(self).wf(),
        ensures
            final(self).wf(),
            final(self)@ == (ScheduleModel { last_poll: now as int, ..old(self)@ }),
    {
        self.last_poll = now as i128;
    }
}

/// Something is due at the moment to which a monitor sleeps, and nothing before.
pub proof fn law_sleep_ends_when_due(s: ScheduleModel, now: int)
    requires
        s.use_rss || s.use_efts,
        !s.validation_due(now),
        !s.poll_due(now),
    ensures
        s.wake() > now,
        s.validation_due(s.wake()) || s.poll_due(s.wake()),
        forall|t: int|
            now <= t < s.wake() ==> !s.validation_due(t) && !#[trigger] s.poll_due(t),
{
}

/// A monitor that has just polled and validated does neither again before an interval is over.
pub proof fn law_intervals_are_kept(s: ScheduleModel, now: int, later: int)
    requires
        s.last_poll == now,
        s.last_validation == now,
        later - now < s.poll_interval,
        later - now < s.validation_interval,
        now <= later,
    ensures
        !s.validation_due(later),
        !s.poll_due(later),
{
}

/// What a monitor notes on its schedule.
pub enum MonitorNote {
    Validated(int),
    Polled(int),
}

/// A schedule after the given notes.
pub open spec fn schedule_after(s: ScheduleModel, notes: Seq<MonitorNote>) -> ScheduleModel
    decreases notes.len(),
{
    if notes.len() == 0 {
        s
    } else {
        let before = schedule_after(s, notes.drop_last());
        match notes.last() {
            MonitorNote::Validated(now) => ScheduleModel { last_validation: now, ..before },
            MonitorNote::Polled(now) => ScheduleModel { last_poll: now, ..before },
        }
    }
}

proof fn lemma_sources_stay(s: ScheduleModel, notes: Seq<MonitorNote>)
    ensures
        schedule_after(s, notes).use_rss == s.use_rss,
        schedule_after(s, notes).use_efts == s.use_efts,
    decreases notes.len(),
{
    if notes.len() > 0 {
        lemma_sources_stay(s, notes.drop_last());
    }
}

/// Whatever was done before, a monitor without the feed never polls, and one without the search
/// never validates.
pub proof fn law_unused_sources_are_left_alone(
    s: ScheduleModel,
    notes: Seq<MonitorNote>,
    now: int,
)
    ensures
        !s.use_rss ==> !schedule_after(s, notes).poll_due(now),
        !s.use_efts ==> !schedule_after(s, notes).validation_due(now),
{
    lemma_sources_stay(s, notes);
}

} // verus!
