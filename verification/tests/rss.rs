//! The feed of recent filings.
use secinfra::common::{Submission, SubmissionSource, Timestamp};
use secinfra::rss::{
    cik_from_title, entries_of_events, filing_date_of, merge_entries, parse_rss_entries,
    push_or_merge_submission, summary_size_parts, take_bytes, xml_preview, RssEntry, RssError,
};
use secinfra::xml::read_events;

const NOW: Timestamp = Timestamp { seconds: 1_700_000_000, nanos: 5 };

const FEED: &str = r#"<?xml version="1.0"?><feed><title>Latest Filings</title>
<entry><title>10-K/A - NutriBand Inc. (0001676047) (Filer)</title>
<summary type="html"> &lt;b&gt;Filed:&lt;/b&gt; 2026-05-18 &lt;b&gt;AccNo:&lt;/b&gt; 0001213900-26-058507 &lt;b&gt;Size:&lt;/b&gt; 3 MB</summary>
<category scheme="s" label="form type" term="10-K/A"/>
<id>urn:tag:sec.gov,2008:accession-number=0001213900-26-058507</id></entry>
<entry><title>no parentheses</title><category term="8-K"></category></entry></feed>"#;

fn chars(text: &str) -> Vec<char> {
    text.chars().collect()
}

fn entry(accession: Option<&str>, cik: Option<u64>, submission_type: &str) -> RssEntry {
    RssEntry {
        accession: accession.map(str::to_string),
        cik,
        submission_type: submission_type.to_string(),
        filing_date: String::new(),
        summary: None,
    }
}

#[test]
fn entries_of_a_feed_are_read() {
    let entries = parse_rss_entries(FEED).unwrap();
    assert_eq!(entries.len(), 2);
    assert_eq!(entries[0].accession.as_deref(), Some("0001213900-26-058507"));
    assert_eq!(entries[0].cik, Some(1676047));
    assert_eq!(entries[0].submission_type, "10-K/A");
    assert_eq!(entries[0].filing_date, "2026-05-18");
    assert!(entries[0].summary.as_ref().unwrap().ends_with("3 MB"));
    assert_eq!(entries[1].accession, None);
    assert_eq!(entries[1].cik, None);
    assert_eq!(entries[1].submission_type, "8-K");
    assert_eq!(entries[1].filing_date, "");
    assert_eq!(entries[1].summary, None);
    assert_eq!(entries_of_events(&read_events(FEED.as_bytes(), true)).unwrap().len(), 2);
}

#[test]
fn what_stands_before_an_error_counts() {
    let xml = "<feed><entry><id>urn:tag:sec.gov,2008:accession-number=5</id></entry><entry></x>";
    let entries = parse_rss_entries(xml).unwrap();
    assert_eq!(entries.len(), 1);
    assert_eq!(entries[0].accession.as_deref(), Some("5"));
}

#[test]
fn short_dates_are_refused() {
    assert!(matches!(
        parse_rss_entries("<summary>Filed:&lt;/b&gt; 2026</summary>"),
        Err(RssError::MalformedDate)
    ));
    assert!(matches!(filing_date_of(&chars("Filed:</b>")), Err(RssError::MalformedDate)));
    assert!(matches!(
        filing_date_of(&chars("Filed:</b> 2026-05-1\u{e9}x")),
        Err(RssError::MalformedDate)
    ));
    assert_eq!(filing_date_of(&chars("none")).unwrap(), None);
    assert_eq!(
        filing_date_of(&chars("<b>Filed:</b>  2026-05-18 x")).unwrap().as_deref(),
        Some("2026-05-18")
    );
}

#[test]
fn ciks_stand_in_the_last_parentheses_but_one() {
    assert_eq!(cik_from_title(&chars("10-K - A (0001676047) (Filer)"), None), Some(1676047));
    assert_eq!(cik_from_title(&chars("A (x) (12) (Filer)"), Some(3)), Some(12));
    assert_eq!(cik_from_title(&chars("A (name) (Filer)"), Some(3)), None);
    assert_eq!(cik_from_title(&chars("plain"), Some(3)), Some(3));
    assert_eq!(cik_from_title(&chars("5(Filer)"), None), Some(5));
}

#[test]
fn prefixes_are_cut_at_characters() {
    assert_eq!(take_bytes(&chars("abc"), 2), Some(chars("ab")));
    assert_eq!(take_bytes(&chars("abc"), 3), Some(chars("abc")));
    assert_eq!(take_bytes(&chars("abc"), 4), None);
    assert_eq!(take_bytes(&chars("\u{e9}b"), 1), None);
    assert_eq!(take_bytes(&chars("\u{e9}b"), 2), Some(chars("\u{e9}")));
}

#[test]
fn sizes_have_units() {
    let parts = |text: &str| summary_size_parts(text);
    assert_eq!(parts("Size:</b> 12 KB"), Some(("12".to_string(), 1024)));
    assert_eq!(parts("x Size:</b>3.5 mb."), Some(("3.5".to_string(), 1024 * 1024)));
    assert_eq!(parts("Size:</b> 1 GB"), Some(("1".to_string(), 1024 * 1024 * 1024)));
    assert_eq!(parts("Size:</b> 7"), Some(("7".to_string(), 1)));
    assert_eq!(parts("Size:</b> 7 <bytes>"), Some(("7".to_string(), 1)));
    assert_eq!(parts("Size:</b> 7 furlongs"), None);
    assert_eq!(parts("Size:</b> "), None);
    assert_eq!(parts("no size"), None);
}

#[test]
fn filings_are_listed_once() {
    let entries = vec![
        entry(Some("a"), Some(1), ""),
        entry(Some("b"), Some(5), "8-K"),
        entry(None, Some(9), "4"),
        entry(Some("a"), Some(2), "10-K"),
        entry(Some("a"), Some(1), "10-Q"),
    ];
    let accessions = vec![Some(100), Some(200), None, Some(100), Some(100)];
    let sizes = vec![None, Some(7), None, Some(9), Some(11)];
    let submissions = merge_entries(&entries, &accessions, &sizes, NOW);
    assert_eq!(submissions.len(), 2);
    assert_eq!(submissions[0].accession, 100);
    assert_eq!(submissions[0].ciks, vec![1, 2]);
    assert_eq!(submissions[0].submission_type, "10-K");
    assert_eq!(submissions[0].size_bytes, Some(9));
    assert_eq!(submissions[0].source, SubmissionSource::Rss);
    assert_eq!(submissions[0].detected_time.seconds, NOW.seconds);
    assert_eq!(submissions[1].accession, 200);
    assert_eq!(submissions[1].ciks, vec![5]);
}

#[test]
fn first_values_are_kept() {
    let mut submissions: Vec<Submission> = Vec::new();
    push_or_merge_submission(&mut submissions, 1, None, "", "2024-01-01", None, NOW);
    assert!(submissions[0].ciks.is_empty());
    push_or_merge_submission(&mut submissions, 1, Some(4), "8-K", "2025-01-01", Some(3), NOW);
    push_or_merge_submission(&mut submissions, 1, Some(4), "4", "", Some(5), NOW);
    assert_eq!(submissions.len(), 1);
    assert_eq!(submissions[0].ciks, vec![4]);
    assert_eq!(submissions[0].submission_type, "8-K");
    assert_eq!(submissions[0].filing_date, "2024-01-01");
    assert_eq!(submissions[0].size_bytes, Some(3));
}

#[test]
fn previews_are_short() {
    assert_eq!(xml_preview("<a/>"), "<a/>");
    assert_eq!(xml_preview(&"x".repeat(1500)).len(), 1000);
    let cut = format!("{}\u{e9}", "x".repeat(999));
    assert_eq!(xml_preview(&cut), format!("{}\u{fffd}", "x".repeat(999)));
}
