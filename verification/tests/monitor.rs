//! Watching for new filings.
use secinfra::common::{Submission, SubmissionSource, Timestamp};
use secinfra::monitor::{AccessionCache, Monitor, MonitorAction, Schedule, MAX_ACCESSIONS};
use secinfra::parse_index_page::CalendarDate;

const MS: u64 = 1_000_000;

fn submission(accession: u64) -> Submission {
    Submission {
        accession,
        submission_type: "8-K".to_string(),
        ciks: vec![1],
        filing_date: "2024-01-01".to_string(),
        size_bytes: None,
        source: SubmissionSource::Efts,
        detected_time: Timestamp { seconds: 0, nanos: 0 },
    }
}

fn accessions(batch: &[Submission]) -> Vec<u64> {
    batch.iter().map(|s| s.accession).collect()
}

#[test]
fn numbers_are_new_once() {
    let mut cache = AccessionCache::new(2);
    assert!(cache.check_and_insert(1));
    assert!(!cache.check_and_insert(1));
    assert!(cache.check_and_insert(2));
    assert!(cache.check_and_insert(3));
    assert!(!cache.check_and_insert(2));
    assert!(!cache.check_and_insert(3));
    assert!(cache.check_and_insert(1));
    assert!(cache.check_and_insert(2));
}

#[test]
fn an_empty_cache_knows_nothing_new() {
    let mut cache = AccessionCache::new(0);
    assert!(!cache.check_and_insert(1));
    assert!(cache.filter_new(vec![submission(1)]).is_empty());
}

#[test]
fn batches_are_filtered() {
    let mut cache = AccessionCache::new(3);
    let new = cache.filter_new(vec![submission(1), submission(2), submission(1)]);
    assert_eq!(accessions(&new), vec![1, 2]);
    assert_eq!(new[0].submission_type, "8-K");
    let new = cache.filter_new(vec![submission(2), submission(3), submission(4), submission(1)]);
    assert_eq!(accessions(&new), vec![3, 4, 1]);
    assert!(!cache.check_and_insert(3));
}

#[test]
fn the_usual_cache_is_large() {
    assert_eq!(MAX_ACCESSIONS, 50_000);
    let mut cache = AccessionCache::default();
    for number in 0..50_001 {
        assert!(cache.check_and_insert(number));
    }
    assert!(!cache.check_and_insert(1));
    assert!(cache.check_and_insert(0));
}

#[test]
fn monitors_are_built_step_by_step() {
    let plan = Monitor::new().build();
    assert_eq!(plan.polling_interval_ms, 200);
    assert_eq!(plan.validation_interval_ms, 60_000);
    assert!(plan.use_rss && plan.use_efts);
    assert_eq!(plan.start_date, None);

    let mut cache = AccessionCache::new(5);
    cache.check_and_insert(9);
    let date = CalendarDate { year: 2024, month: 2, day: 29 };
    let mut plan = Monitor::default()
        .polling_interval_ms(50)
        .validation_interval_ms(70)
        .start_date(date)
        .use_rss(false)
        .use_efts(true)
        .with_cache(cache)
        .build();
    assert_eq!(plan.polling_interval_ms, 50);
    assert_eq!(plan.validation_interval_ms, 70);
    assert_eq!(plan.start_date, Some(date));
    assert!(!plan.use_rss);
    assert!(!plan.accession_cache.check_and_insert(9));
}

#[test]
fn validation_comes_before_polling() {
    let mut schedule = Schedule::new(200, 1000, true, true, true, true);
    assert_eq!(schedule.next_action(0), MonitorAction::Validate);
    schedule.validated(5 * MS);
    assert_eq!(schedule.next_action(5 * MS), MonitorAction::Poll);
    schedule.polled(10 * MS);
    assert_eq!(
        schedule.next_action(10 * MS),
        MonitorAction::Sleep { seconds: 0, nanos: 200 * MS as u32 }
    );
    assert_eq!(schedule.next_action(210 * MS), MonitorAction::Poll);
    schedule.polled(900 * MS);
    assert_eq!(
        schedule.next_action(900 * MS),
        MonitorAction::Sleep { seconds: 0, nanos: 105 * MS as u32 }
    );
    assert_eq!(schedule.next_action(1005 * MS), MonitorAction::Validate);
}

#[test]
fn what_is_switched_off_never_happens() {
    let mut polls = Schedule::new(2500, 1, true, false, true, true);
    assert_eq!(polls.next_action(0), MonitorAction::Poll);
    polls.polled(0);
    assert_eq!(
        polls.next_action(MS),
        MonitorAction::Sleep { seconds: 2, nanos: 499 * MS as u32 }
    );
    let mut checks = Schedule::new(1, 3000, false, true, true, true);
    assert_eq!(checks.next_action(0), MonitorAction::Validate);
    checks.validated(0);
    assert_eq!(checks.next_action(0), MonitorAction::Sleep { seconds: 3, nanos: 0 });
}

#[test]
fn a_late_start_waits_an_interval() {
    let schedule = Schedule::new(200, 1000, true, true, false, false);
    assert_eq!(
        schedule.next_action(0),
        MonitorAction::Sleep { seconds: 0, nanos: 200 * MS as u32 }
    );
}

#[test]
fn nothing_is_handed_on_twice() {
    let mut cache = AccessionCache::new(8);
    cache.check_and_insert(1);
    let mut emitted: Vec<u64> = Vec::new();
    let mut batches = 0;
    for batch in [vec![1, 2, 3], vec![3, 2, 1], vec![], vec![4, 4, 5, 1], vec![6, 7, 8, 2]] {
        if let Some(new) = cache.take_new(batch.into_iter().map(submission).collect()) {
            assert!(!new.is_empty());
            emitted.extend(accessions(&new));
            batches += 1;
        }
    }
    assert_eq!(emitted, vec![2, 3, 4, 5, 6, 7, 8]);
    assert_eq!(batches, 3);
}

#[test]
fn failed_polls_give_nothing() {
    let mut cache = AccessionCache::new(8);
    let batch = |list: &[u64]| Some(list.iter().copied().map(submission).collect());
    assert_eq!(accessions(&cache.take_polled(batch(&[1, 2])).unwrap()), vec![1, 2]);
    assert!(cache.take_polled(None).is_none());
    assert!(cache.take_polled(batch(&[])).is_none());
    assert!(cache.take_polled(batch(&[2, 1])).is_none());
    assert_eq!(accessions(&cache.take_polled(batch(&[2, 3])).unwrap()), vec![3]);
}
