//! The filings of companies, from the files of an archive to columns.
use std::io::{Cursor, Read, Write};

use secinfra::construct_submissions_data::{
    entry_action, process_submission_file, records_of_value, ArchiveEntry,
    ConstructSubmissionsDataStats, EntryAction,
};
use secinfra::construct_submissions_metadata::ColumnBuffer;
use secinfra::json::parse_json;
use secinfra::submissions::{cik_from_filename, is_cik_filename, SubmissionsError};
use zip::write::SimpleFileOptions;
use zip::ZipArchive;

fn sample_zip(filename: &str, json: &[u8]) -> Vec<u8> {
    let mut zip_bytes = Cursor::new(Vec::new());
    {
        let mut zip = zip::ZipWriter::new(&mut zip_bytes);
        zip.start_file(filename, SimpleFileOptions::default()).unwrap();
        zip.write_all(json).unwrap();
        zip.finish().unwrap();
    }
    zip_bytes.into_inner()
}

/// Goes through an archive as a writer does, and gives the columns of the first batch.
fn read_first_batch(
    zip_bytes: Vec<u8>,
) -> (ConstructSubmissionsDataStats, Vec<(String, ColumnBuffer)>) {
    let mut archive = ZipArchive::new(Cursor::new(zip_bytes)).unwrap();
    let mut stats = ConstructSubmissionsDataStats::new();
    let mut batches = Vec::new();
    for index in 0..archive.len() {
        let mut file = archive.by_index(index).unwrap();
        let name = file.name().to_string();
        let mut bytes = Vec::new();
        file.read_to_end(&mut bytes).unwrap();
        let action = entry_action(&ArchiveEntry::File(&name, &bytes));
        stats.count(&action);
        if let EntryAction::Write(records) = action {
            if !records.is_empty() {
                batches.push(records.into_columns());
            }
        }
    }
    (stats, batches.remove(0))
}

fn numbers(column: &(String, ColumnBuffer)) -> &Vec<u64> {
    match &column.1 {
        ColumnBuffer::UInt64(values) => values,
        _ => panic!("not a column of numbers"),
    }
}

fn strings(column: &(String, ColumnBuffer)) -> &Vec<String> {
    match &column.1 {
        ColumnBuffer::Utf8(values) => values,
        _ => panic!("not a column of texts"),
    }
}

#[test]
fn writes_sec_field_names_without_mapping() {
    let zip_bytes = sample_zip(
        "CIK0000320193.json",
        br#"{
                "filings": {
                    "recent": {
                        "accessionNumber": ["0000320193-24-000123"],
                        "filingDate": ["2024-10-31"],
                        "form": ["10-Q"]
                    }
                }
            }"#,
    );

    let (stats, batch) = read_first_batch(zip_bytes);

    assert_eq!(stats.files_processed, 1);
    assert_eq!(stats.filings_written, 1);
    assert_eq!(
        batch.iter().map(|column| column.0.as_str()).collect::<Vec<_>>(),
        vec!["cik", "accessionNumber", "filingDate", "form"]
    );
    assert_eq!(numbers(&batch[0])[0], 320193);
    assert_eq!(strings(&batch[1])[0], "0000320193-24-000123");
    assert_eq!(strings(&batch[3])[0], "10-Q");
}

#[test]
fn reads_submission_shard_shape() {
    let zip_bytes = sample_zip(
        "CIK0000000001-submissions-001.json",
        br#"{
                "accessionNumber": ["0000000001-24-000001"],
                "filingDate": ["2024-01-02"],
                "form": ["8-K"]
            }"#,
    );

    let (stats, batch) = read_first_batch(zip_bytes);

    assert_eq!(stats.files_processed, 1);
    assert_eq!(stats.filings_written, 1);
    assert_eq!(numbers(&batch[0])[0], 1);
    assert_eq!(strings(&batch[3])[0], "8-K");
}

#[test]
fn ciks_are_read_from_file_names() {
    assert_eq!(cik_from_filename("CIK0000320193.json").unwrap(), 320193);
    assert_eq!(cik_from_filename("CIK0000000001-submissions-001.json").unwrap(), 1);
    assert_eq!(cik_from_filename("CIK7").unwrap(), 7);
    assert_eq!(cik_from_filename("CIK+7.json").unwrap(), 7);
    assert!(matches!(cik_from_filename("readme.txt"), Err(SubmissionsError::NotCikFile)));
    assert!(matches!(cik_from_filename("cik1.json"), Err(SubmissionsError::NotCikFile)));
    assert!(matches!(cik_from_filename("CIKx.json"), Err(SubmissionsError::InvalidCik)));
    assert!(matches!(cik_from_filename("CIK.json"), Err(SubmissionsError::InvalidCik)));
    assert!(matches!(
        cik_from_filename("CIK18446744073709551616.json"),
        Err(SubmissionsError::InvalidCik)
    ));
    assert!(is_cik_filename("CIKx"));
    assert!(!is_cik_filename("placeholder.txt"));
}

#[test]
fn unusable_files_say_why() {
    assert!(matches!(
        process_submission_file("CIK1.json", b"{"),
        Err(SubmissionsError::InvalidJson(_))
    ));
    assert!(matches!(
        process_submission_file("CIK1.json", b"{\"filings\":{}}"),
        Err(SubmissionsError::MissingRecent)
    ));
    assert!(matches!(
        process_submission_file("CIK1.json", b"{\"filings\":[]}"),
        Err(SubmissionsError::MissingRecent)
    ));
    match process_submission_file(
        "CIK1.json",
        b"{\"filings\":{\"recent\":{\"accessionNumber\":[\"a\"],\"filingDate\":\"x\"}}}",
    ) {
        Err(SubmissionsError::MissingField(field)) => assert_eq!(field, "filingDate"),
        _ => panic!("the dates are not a list"),
    }
    assert!(matches!(
        process_submission_file(
            "CIK1-submissions.json",
            b"{\"accessionNumber\":[\"a\",\"b\"],\"filingDate\":[\"1\",\"2\"],\"form\":[\"x\"]}",
        ),
        Err(SubmissionsError::MismatchedLengths)
    ));
}

#[test]
fn values_of_other_kinds_become_text() {
    let data = parse_json(
        b"{\"accessionNumber\":[null,true,12,[1, 2],{\"b\":1,\"a\":\"x\"}],
          \"filingDate\":[\"d1\",\"d2\",1.5,-3,\"d5\",\"longer\"],
          \"form\":[\"f\",\"g\",\"h\",\"i\",false]}",
    )
    .unwrap();
    let records = records_of_value("CIK42-submissions.json", &data).unwrap();
    assert_eq!(records.len(), 5);
    assert_eq!(records.ciks, vec![42; 5]);
    assert_eq!(
        records.accession_numbers,
        vec!["", "true", "12", "[1,2]", "{\"a\":\"x\",\"b\":1}"]
    );
    assert_eq!(records.filing_dates, vec!["d1", "d2", "1.5", "-3", "d5"]);
    assert_eq!(records.forms, vec!["f", "g", "h", "i", "false"]);
}

#[test]
fn entries_are_counted() {
    let mut stats = ConstructSubmissionsDataStats::new();
    let good = b"{\"accessionNumber\":[\"a\",\"b\"],\"filingDate\":[\"1\",\"2\"],\"form\":[\"x\",\"y\"]}";
    for entry in [
        ArchiveEntry::Unreadable,
        ArchiveEntry::Broken("CIK1.json"),
        ArchiveEntry::Broken("other.json"),
        ArchiveEntry::File("other.json", good),
        ArchiveEntry::File("CIK1.json", good),
        ArchiveEntry::File("CIK2-submissions-001.json", good),
    ] {
        let action = entry_action(&entry);
        stats.count(&action);
    }
    assert_eq!(stats.files_processed, 1);
    assert_eq!(stats.files_skipped, 3);
    assert_eq!(stats.filings_written, 2);
}

#[test]
fn columns_of_a_file_are_equally_long() {
    let records = process_submission_file(
        "CIK9-submissions.json",
        b"{\"accessionNumber\":[\"a\",\"b\"],\"filingDate\":[\"1\",\"2\",\"3\"],\"form\":[\"x\",\"y\"]}",
    )
    .unwrap();
    let columns = records.into_columns();
    assert_eq!(numbers(&columns[0]).len(), 2);
    for column in &columns[1..] {
        assert_eq!(strings(column).len(), 2);
    }
}

#[test]
fn skipped_entries_say_why() {
    assert!(matches!(entry_action(&ArchiveEntry::Unreadable), EntryAction::Skip(None)));
    assert!(matches!(entry_action(&ArchiveEntry::Broken("CIK1.json")), EntryAction::Skip(None)));
    assert!(matches!(entry_action(&ArchiveEntry::Broken("x.json")), EntryAction::Ignore));
    assert!(matches!(
        entry_action(&ArchiveEntry::File("CIK1.json", b"{")),
        EntryAction::Skip(Some(SubmissionsError::InvalidJson(_)))
    ));
    assert!(matches!(
        entry_action(&ArchiveEntry::File("CIKx.json", b"{}")),
        EntryAction::Skip(Some(SubmissionsError::InvalidCik))
    ));
    assert!(matches!(
        entry_action(&ArchiveEntry::File("CIK1.json", b"{}")),
        EntryAction::Skip(Some(SubmissionsError::MissingRecent))
    ));
    match entry_action(&ArchiveEntry::File("CIK1-submissions.json", b"{}")) {
        EntryAction::Skip(Some(SubmissionsError::MissingField(field))) => {
            assert_eq!(field, "accessionNumber")
        }
        _ => panic!("there are no accession numbers"),
    }
}

#[test]
fn runs_write_the_usable_files_in_order() {
    let first = b"{\"accessionNumber\":[\"a\",\"b\"],\"filingDate\":[\"1\",\"2\"],\"form\":[\"x\",\"y\"]}";
    let second = b"{\"accessionNumber\":[\"c\"],\"filingDate\":[\"3\"],\"form\":[\"z\"]}";
    let empty = b"{\"accessionNumber\":[],\"filingDate\":[],\"form\":[]}";
    let mut stats = ConstructSubmissionsDataStats::new();
    let mut rows: Vec<(u64, String, String)> = Vec::new();
    for entry in [
        ArchiveEntry::File("CIK7-submissions-001.json", first),
        ArchiveEntry::Unreadable,
        ArchiveEntry::File("readme.txt", second),
        ArchiveEntry::File("CIK5-submissions-001.json", empty),
        ArchiveEntry::File("CIK6-submissions-001.json", b"[]"),
        ArchiveEntry::File("CIK3-submissions-001.json", second),
    ] {
        let action = entry_action(&entry);
        stats.count(&action);
        if let EntryAction::Write(records) = action {
            for (k, cik) in records.ciks.iter().enumerate() {
                let number = records.accession_numbers[k].clone();
                rows.push((*cik, number, records.forms[k].clone()));
            }
        }
    }
    let expected = [(7, "a", "x"), (7, "b", "y"), (3, "c", "z")];
    assert_eq!(rows, expected.map(|(cik, a, form)| (cik, a.to_string(), form.to_string())));
    assert_eq!(stats.files_processed, 3);
    assert_eq!(stats.files_skipped, 2);
    assert_eq!(stats.filings_written, 3);
}
