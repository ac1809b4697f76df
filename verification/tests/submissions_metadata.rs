//! Chosen columns of the filings of companies.
use secinfra::construct_submissions_metadata::{
    append_submission_bytes, column_kind, column_names, distribute_filename_batches,
    keep_cik_filenames, resolve_columns, resolve_threads, BatchCollector, CollectorAction,
    ColumnBuffer, ColumnKind, ConfigError, MetadataRun, SubmissionBatchBuffer, BATCH_TARGET_ROWS,
    DEFAULT_COLUMNS,
};
use secinfra::json::{
    as_array, metadata_value_bool, metadata_value_u64, object_get, parquet_value, parse_json,
    truncate_double, JsonValue,
};
use secinfra::submissions::{add_capped, SubmissionsError};

fn names(list: &[&str]) -> Vec<String> {
    list.iter().map(|name| name.to_string()).collect()
}

fn value(text: &str) -> JsonValue {
    parse_json(text.as_bytes()).unwrap()
}

#[test]
fn default_columns_are_chosen() {
    let columns = resolve_columns(None).unwrap();
    assert_eq!(column_names(&columns), DEFAULT_COLUMNS.to_vec());
    assert_eq!(columns.len(), 16);
    for column in &columns {
        let kind = match column.name.as_str() {
            "size" => ColumnKind::UInt64,
            "isXBRL" | "isInlineXBRL" | "isXBRLNumeric" => ColumnKind::Boolean,
            _ => ColumnKind::Utf8,
        };
        assert_eq!(column.kind, kind);
        assert_eq!(column_kind(&column.name), kind);
    }
}

#[test]
fn wrong_columns_are_refused() {
    assert!(matches!(resolve_columns(Some(Vec::new())), Err(ConfigError::NoColumns)));
    assert!(matches!(
        resolve_columns(Some(names(&["form", ""]))),
        Err(ConfigError::EmptyColumn)
    ));
    assert!(matches!(
        resolve_columns(Some(names(&["cik", "form"]))),
        Err(ConfigError::CikColumn)
    ));
    match resolve_columns(Some(names(&["form", "size", "form", ""]))) {
        Err(ConfigError::DuplicateColumn(name)) => assert_eq!(name, "form"),
        _ => panic!("the column is there twice"),
    }
}

#[test]
fn threads_are_at_least_one() {
    assert_eq!(resolve_threads(None).unwrap(), 1);
    assert_eq!(resolve_threads(Some(8)).unwrap(), 8);
    assert!(matches!(resolve_threads(Some(0)), Err(ConfigError::NoThreads)));
}

#[test]
fn values_become_numbers() {
    for (text, number) in [
        ("12", 12),
        ("18446744073709551615", u64::MAX),
        ("-1", 0),
        ("2.9", 2),
        ("-2.9", 0),
        ("1e300", u64::MAX),
        ("1e3", 1000),
        ("0.5", 0),
        ("2251799813685249.5", 2251799813685249),
        ("9007199254740994.0", 9007199254740994),
        ("true", 1),
        ("false", 0),
        ("\"77\"", 77),
        ("\"+77\"", 77),
        ("\"7.5\"", 0),
        ("\"x\"", 0),
        ("null", 0),
        ("[1]", 0),
        ("{}", 0),
    ] {
        assert_eq!(metadata_value_u64(&value(text)), number, "{text}");
    }
}

#[test]
fn doubles_are_truncated() {
    for double in [0.0f64, -0.0, 0.99, 1.0, 1.5, 123456789.75, 1e15, 1.8446744073709550e19, -7.0] {
        assert_eq!(truncate_double(double.to_bits()), double as u64, "{double}");
    }
    for double in [1.8446744073709552e19, 1e300, f64::INFINITY, f64::NEG_INFINITY, f64::NAN] {
        assert_eq!(truncate_double(double.to_bits()), double as u64, "{double}");
    }
}

#[test]
fn values_become_flags() {
    for (text, flag) in [
        ("true", true),
        ("false", false),
        ("1", true),
        ("0", false),
        ("-5", true),
        ("18446744073709551615", true),
        ("0.0", false),
        ("-0.0", false),
        ("0.1", true),
        ("\"1\"", true),
        ("\"true\"", true),
        ("\"TRUE\"", true),
        ("\"True\"", true),
        ("\"tRUE\"", false),
        ("\"0\"", false),
        ("null", false),
        ("[true]", false),
        ("{\"a\":1}", false),
    ] {
        assert_eq!(metadata_value_bool(&value(text)), flag, "{text}");
    }
}

#[test]
fn json_is_read() {
    let data = value("{\"b\":[1,\"two\"],\"a\":{\"x\":null}}");
    let list = as_array(object_get(&data, "b").unwrap()).unwrap();
    assert_eq!(list.len(), 2);
    assert_eq!(parquet_value(&list[1]), "two");
    assert!(matches!(object_get(object_get(&data, "a").unwrap(), "x"), Some(JsonValue::Null)));
    assert!(object_get(&data, "c").is_none());
    assert!(object_get(&list[0], "b").is_none());
    assert!(as_array(&data).is_none());
    assert_eq!(parquet_value(&data), "{\"a\":{\"x\":null},\"b\":[1,\"two\"]}");
    assert!(parse_json(b"[1,]").is_err());
}

#[test]
fn rows_are_appended_column_by_column() {
    let columns = resolve_columns(Some(names(&["form", "size", "isXBRL"]))).unwrap();
    let mut buffer = SubmissionBatchBuffer::new(&columns);
    let json = b"{\"filings\":{\"recent\":{\"accessionNumber\":[\"a\",\"b\"],
        \"form\":[\"10-K\",\"8-K\",\"spare\"],\"size\":[1200,\"7\"],\"isXBRL\":[1,0]}}}";
    assert_eq!(append_submission_bytes("CIK5.json", json, &columns, &mut buffer).unwrap(), 2);
    assert_eq!(buffer.files, 1);
    assert_eq!(buffer.json_bytes, json.len());
    assert_eq!(buffer.len(), 2);
    assert!(!buffer.is_full());

    let batch = buffer.take();
    assert!(buffer.is_empty());
    assert_eq!(buffer.files, 0);
    let table = batch.into_columns(&columns);
    assert_eq!(
        table.iter().map(|column| column.0.as_str()).collect::<Vec<_>>(),
        vec!["cik", "form", "size", "isXBRL"]
    );
    assert!(matches!(&table[0].1, ColumnBuffer::UInt64(v) if v == &vec![5, 5]));
    assert!(matches!(&table[1].1, ColumnBuffer::Utf8(v) if v == &vec!["10-K", "8-K"]));
    assert!(matches!(&table[2].1, ColumnBuffer::UInt64(v) if v == &vec![1200, 7]));
    assert!(matches!(&table[3].1, ColumnBuffer::Boolean(v) if v == &vec![true, false]));
}

#[test]
fn a_refused_file_leaves_the_rows() {
    let columns = resolve_columns(Some(names(&["form"]))).unwrap();
    let mut buffer = SubmissionBatchBuffer::new(&columns);
    let short = b"{\"accessionNumber\":[\"a\",\"b\"],\"form\":[\"x\"]}";
    assert!(matches!(
        append_submission_bytes("CIK1-submissions.json", short, &columns, &mut buffer),
        Err(SubmissionsError::MismatchedLengths)
    ));
    let missing = b"{\"accessionNumber\":[\"a\"]}";
    match append_submission_bytes("CIK1-submissions.json", missing, &columns, &mut buffer) {
        Err(SubmissionsError::MissingField(field)) => assert_eq!(field, "form"),
        _ => panic!("there are no forms"),
    }
    assert!(matches!(
        append_submission_bytes("CIK1.json", b"nonsense", &columns, &mut buffer),
        Err(SubmissionsError::InvalidJson(_))
    ));
    assert!(buffer.is_empty());
    assert_eq!(buffer.files, 0);
    assert_eq!(buffer.json_bytes, 0);
}

fn file_with_rows(rows: usize) -> Vec<u8> {
    let mut out = b"{\"accessionNumber\":[".to_vec();
    for row in 0..rows {
        if row > 0 {
            out.push(b',');
        }
        out.extend_from_slice(b"\"a\"");
    }
    out.extend_from_slice(b"],\"form\":[");
    for row in 0..rows {
        if row > 0 {
            out.push(b',');
        }
        out.extend_from_slice(b"\"f\"");
    }
    out.extend_from_slice(b"]}");
    out
}

#[test]
fn runs_hand_out_full_batches() {
    let columns = resolve_columns(Some(names(&["form"]))).unwrap();
    let mut run = MetadataRun::new(columns);
    let half = file_with_rows(BATCH_TARGET_ROWS / 2);
    assert!(run.add_file("index.html", b"not read").unwrap().is_none());
    assert!(run.add_file("CIK1-submissions.json", &half).unwrap().is_none());
    assert!(run.add_file("CIKx-submissions.json", &half).is_err());
    let batch = run.add_file("CIK2-submissions.json", &half).unwrap().unwrap();
    assert_eq!(batch.len(), BATCH_TARGET_ROWS);
    assert_eq!(batch.files, 2);
    assert_eq!(batch.json_bytes, 2 * half.len());
    assert_eq!(batch.ciks[0], 1);
    assert_eq!(batch.ciks[BATCH_TARGET_ROWS - 1], 2);
    assert!(matches!(&batch.columns[0], ColumnBuffer::Utf8(v) if v.len() == BATCH_TARGET_ROWS));

    assert!(run.add_file("CIK3-submissions.json", &file_with_rows(3)).unwrap().is_none());
    assert_eq!(run.stats().batches_written, 1);
    let last = run.finish().unwrap();
    assert_eq!(last.ciks, vec![3, 3, 3]);
    assert!(run.finish().is_none());

    let stats = run.stats();
    assert_eq!(stats.files_processed, 3);
    assert_eq!(stats.files_skipped, 0);
    assert_eq!(stats.filings_written, BATCH_TARGET_ROWS + 3);
    assert_eq!(stats.batches_written, 2);
}

#[test]
fn company_files_are_kept() {
    assert_eq!(
        keep_cik_filenames(&names(&["CIK1.json", "a.txt", "CIK2.json", "xCIK3"])),
        vec!["CIK1.json", "CIK2.json"]
    );
}

#[test]
fn every_file_is_dealt_out_once() {
    let files: Vec<String> = (0..450).map(|k| format!("CIK{k}.json")).collect();
    let workers = distribute_filename_batches(&files, 2);
    assert_eq!(workers.len(), 2);
    assert_eq!(workers[0].iter().map(Vec::len).collect::<Vec<_>>(), vec![100, 100, 50]);
    assert_eq!(workers[1].iter().map(Vec::len).collect::<Vec<_>>(), vec![100, 100]);
    assert_eq!(workers[0][1][0], "CIK200.json");
    assert_eq!(workers[1][1][99], "CIK399.json");
    let mut all: Vec<String> = workers.into_iter().flatten().flatten().collect();
    all.sort();
    let mut expected = files.clone();
    expected.sort();
    assert_eq!(all, expected);

    let idle = distribute_filename_batches(&names(&["CIK1.json"]), 3);
    assert_eq!(idle.iter().map(Vec::len).collect::<Vec<_>>(), vec![1, 0, 0]);
}

#[test]
fn the_first_error_is_kept() {
    let mut collector = BatchCollector::new();
    assert_eq!(collector.receive(true), CollectorAction::Write);
    collector.written(3, 40);
    assert_eq!(collector.receive(false), CollectorAction::KeepError);
    assert_eq!(collector.receive(true), CollectorAction::Drop);
    assert_eq!(collector.receive(false), CollectorAction::DropError);
    assert_eq!(collector.stats.files_processed, 3);
    assert_eq!(collector.stats.filings_written, 40);
    assert_eq!(collector.stats.batches_written, 1);

    let mut failing = BatchCollector::new();
    failing.write_failed();
    assert_eq!(failing.receive(true), CollectorAction::Drop);
}

#[test]
fn counts_stop_at_the_largest_word() {
    assert_eq!(add_capped(2, 3), 5);
    assert_eq!(add_capped(usize::MAX, 1), usize::MAX);
}

fn numbered_file(file: usize, rows: usize) -> Vec<u8> {
    let cells: Vec<String> = (0..rows).map(|row| format!("\"{file}-{row}\"")).collect();
    let cells = cells.join(",");
    format!("{{\"accessionNumber\":[{cells}],\"form\":[{cells}]}}").into_bytes()
}

fn rows_of(batches: &[SubmissionBatchBuffer]) -> Vec<(u64, String)> {
    let mut rows = Vec::new();
    for batch in batches {
        let ColumnBuffer::Utf8(forms) = &batch.columns[0] else {
            panic!("forms are texts");
        };
        rows.extend(batch.ciks.iter().copied().zip(forms.iter().cloned()));
    }
    rows
}

fn run_through(files: &[String], sizes: &[usize]) -> (Vec<SubmissionBatchBuffer>, MetadataRun) {
    let columns = resolve_columns(Some(names(&["form"]))).unwrap();
    let mut run = MetadataRun::new(columns);
    let mut batches = Vec::new();
    for file in files {
        let number: usize = file[3..].split('-').next().unwrap().parse().unwrap();
        let bytes = numbered_file(number, sizes[number]);
        batches.extend(run.add_file(file, &bytes).unwrap());
    }
    batches.extend(run.finish());
    (batches, run)
}

#[test]
fn workers_write_the_rows_of_one_run() {
    let mut sizes: Vec<usize> = (0..250).map(|k| k % 4).collect();
    sizes[20] = BATCH_TARGET_ROWS;
    let files: Vec<String> = (0..250).map(|k| format!("CIK{k}-submissions.json")).collect();
    let (alone, run) = run_through(&files, &sizes);
    let expected = rows_of(&alone);
    assert_eq!(expected.len(), sizes.iter().sum::<usize>());
    assert_eq!(alone.len(), 2);

    let mut collector = BatchCollector::new();
    let mut written: Vec<SubmissionBatchBuffer> = Vec::new();
    for batches in distribute_filename_batches(&files, 2).into_iter().rev() {
        let own: Vec<String> = batches.into_iter().flatten().collect();
        for batch in run_through(&own, &sizes).0 {
            collector.written(batch.files, batch.len());
            written.push(batch);
        }
    }
    let rows = rows_of(&written);
    assert_ne!(rows, expected);
    let mut left: Vec<&[(u64, String)]> = rows.chunk_by(|a, b| a.0 == b.0).collect();
    left.sort_by_key(|rows| rows[0].0);
    assert_eq!(left.concat(), expected);
    assert_eq!(collector.stats.filings_written, run.stats().filings_written);
    assert_eq!(collector.stats.files_skipped, 0);
    assert_eq!(run.stats().files_skipped, 0);
    assert_eq!(run.stats().files_processed, 250);
    assert!(collector.stats.files_processed <= run.stats().files_processed);
}

#[test]
fn files_without_rows_make_no_batch() {
    let files: Vec<String> = (0..3).map(|k| format!("CIK{k}-submissions.json")).collect();
    let (batches, run) = run_through(&files, &[0, 0, 0]);
    assert!(batches.is_empty());
    assert_eq!(run.stats().files_processed, 3);
    assert_eq!(run.stats().filings_written, 0);
    assert_eq!(run.stats().batches_written, 0);
    let (batches, run) = run_through(&files, &[0, 1, 0]);
    assert_eq!(batches.len(), 1);
    assert_eq!(run.stats().batches_written, 1);
}

#[test]
fn an_unusable_file_ends_every_run() {
    let files: Vec<String> = (0..250).map(|k| format!("CIK{k}-submissions.json")).collect();
    let fails = |names: &[String]| {
        let mut run = MetadataRun::new(resolve_columns(Some(vec!["form".to_string()])).unwrap());
        names.iter().any(|name| {
            let bytes = if name.starts_with("CIK130-") {
                b"{}".to_vec()
            } else {
                file_with_rows(1)
            };
            run.add_file(name, &bytes).is_err()
        })
    };
    assert!(fails(&files));
    let workers = distribute_filename_batches(&files, 3);
    let failed: Vec<bool> = workers.iter().map(|batches| fails(&batches.concat())).collect();
    assert_eq!(failed, vec![false, true, false]);
}
