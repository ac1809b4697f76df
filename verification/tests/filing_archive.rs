//! Filings as tar archives.
use secinfra::filenames::{fit_tar_filename, sanitize_filename, unique_filename};
use secinfra::filing_archive::{
    assemble_archive, build_tar_from_sgml, collect_ciks, document_looks_like_xbrl,
    format_fixed_range, metadata_date, metadata_value, normalize_sec_date, parse_sequence,
    FilingDocument,
};
use secinfra::metadata_json::{
    find_section_end, metadata_json, write_document_metadata_json, write_json_object_members,
    write_json_object_range, write_json_string, PreparedDocument,
};
use secinfra::sgml::{
    ParsedSgml, ParsedSubmissionMetadata, SgmlDocument, SubmissionEvent, SubmissionEventType,
};
use secinfra::tar::{
    append_tar_entry, finish_tar, next_tar_entry_offset, tar_padding_len, write_tar_checksum,
    write_tar_octal, TarError,
};
use vstd::hash_set::StringHashSet;

fn pair(key: &str, value: &str, depth: i32) -> SubmissionEvent {
    event(SubmissionEventType::KeyValue, key, value, depth)
}

fn event(event_type: SubmissionEventType, key: &str, value: &str, depth: i32) -> SubmissionEvent {
    SubmissionEvent {
        event_type,
        key: key.as_bytes().to_vec(),
        value: value.as_bytes().to_vec(),
        depth,
    }
}

fn document(doc_type: &str, sequence: &str, filename: &str, content: &[u8]) -> SgmlDocument {
    SgmlDocument {
        doc_type: doc_type.as_bytes().to_vec(),
        sequence: sequence.as_bytes().to_vec(),
        filename: filename.as_bytes().to_vec(),
        description: b"text".to_vec(),
        content: content.to_vec(),
    }
}

fn header() -> ParsedSubmissionMetadata {
    ParsedSubmissionMetadata {
        events: vec![
            pair("type", " 10-K ", 0),
            pair("filing-date", "20240131", 0),
            pair("period", "2023/12/31", 0),
            event(SubmissionEventType::SectionStart, "filer", "", 0),
            pair("CIK", "0000320193", 1),
            event(SubmissionEventType::SectionEnd, "filer", "", 0),
            event(SubmissionEventType::SectionStart, "filer", "", 0),
            pair("cik", " 42 ", 1),
            pair("Cik", "320193", 1),
            event(SubmissionEventType::SectionEnd, "filer", "", 0),
        ],
    }
}

#[test]
fn documents_can_be_read_from_their_ranges() {
    let first: Vec<u8> = b"annual report ".iter().cycle().take(3000).copied().collect();
    let parsed = ParsedSgml {
        documents: vec![
            document("10-K", "1", "report.htm", &first),
            document("EX-101.INS", "x", "report.htm", b""),
            document("GRAPHIC", " 7 ", "", b"\x00\x01\xff"),
        ],
        doc_count: 3,
        uuencoded_count: 1,
    };
    let archive = build_tar_from_sgml(&parsed, &header(), 3).unwrap();

    assert_eq!(archive.document_count, 3);
    assert_eq!(archive.uuencoded_count, 1);
    assert_eq!(archive.submission_type.as_deref(), Some("10-K"));
    assert_eq!(archive.filing_date.as_deref(), Some("2024-01-31"));
    assert_eq!(archive.report_date.as_deref(), Some("2023-12-31"));
    assert!(archive.contains_xbrl);
    assert_eq!(archive.ciks, vec![320193, 42]);
    assert_eq!(
        archive.documents.iter().map(|doc| doc.sequence).collect::<Vec<_>>(),
        vec![1, 2, 7]
    );

    let contents: [&[u8]; 3] = [&first, b"", b"\x00\x01\xff"];
    for (index, content) in contents.iter().enumerate() {
        let listed = &archive.documents[index];
        let range = listed.tar_start_byte as usize..listed.tar_end_byte as usize;
        let frame = &archive.bytes[range];
        assert_eq!(zstd::bulk::decompress(frame, content.len()).unwrap(), *content);
        let given = &archive.document_ranges[index];
        assert_eq!(given.start_byte.len(), 20);
        assert_eq!(given.start_byte.parse::<u64>().unwrap(), listed.tar_start_byte);
        assert_eq!(given.end_byte.parse::<u64>().unwrap(), listed.tar_end_byte);
        assert_eq!(given.filename, listed.filename);
        assert_eq!(listed.tar_start_byte % 512, 0);
    }

    let names: Vec<&[u8]> = archive
        .documents
        .iter()
        .map(|doc| &archive.bytes[doc.tar_start_byte as usize - 512..][..20])
        .collect();
    assert!(names[0].starts_with(b"report.htm.zst\0"));
    assert!(names[1].starts_with(b"report.htm-2.zst\0"));
    assert!(names[2].starts_with(b"3.txt.zst\0"));
    assert!(archive.bytes.starts_with(b"metadata.json\0"));
    assert_eq!(archive.bytes.len() % 512, 0);
    assert!(archive.bytes[archive.bytes.len() - 1024..].iter().all(|byte| *byte == 0));

    let metadata_len = usize::from_str_radix(
        std::str::from_utf8(&archive.bytes[124..135]).unwrap(),
        8,
    )
    .unwrap();
    let metadata: serde_json::Value =
        serde_json::from_slice(&archive.bytes[512..512 + metadata_len]).unwrap();
    assert_eq!(metadata["filer"][1]["cik"], " 42 ");
    assert_eq!(
        metadata["documents"][2]["secsgml_end_byte"],
        archive.document_ranges[2].end_byte.as_str()
    );
}

#[test]
fn an_empty_filing_is_an_archive_too() {
    let parsed = ParsedSgml { documents: Vec::new(), doc_count: 0, uuencoded_count: 0 };
    let header = ParsedSubmissionMetadata { events: Vec::new() };
    let archive = assemble_archive(&parsed, &header, &Vec::new()).unwrap();
    assert_eq!(archive.bytes.len(), 512 + 512 + 1024);
    assert_eq!(&archive.bytes[512..529], b"{\"documents\":[]}\n");
    assert_eq!(archive.submission_type, None);
    assert!(!archive.contains_xbrl);
    assert!(archive.ciks.is_empty());
}

#[test]
fn tar_headers_have_fixed_fields() {
    let mut tar = Vec::new();
    append_tar_entry(&mut tar, "a.txt", b"hello").unwrap();
    assert_eq!(tar.len(), 1024);
    assert_eq!(&tar[..6], b"a.txt\0");
    assert_eq!(&tar[100..108], b"0000644\0");
    assert_eq!(&tar[108..116], b"0000000\0");
    assert_eq!(&tar[124..136], b"00000000005\0");
    assert_eq!(&tar[136..148], b"00000000000\0");
    assert_eq!(tar[156], b'0');
    assert_eq!(&tar[257..265], b"ustar\x0000");
    let mut sum: u32 = 8 * 32;
    for (index, byte) in tar[..512].iter().enumerate() {
        if !(148..156).contains(&index) {
            sum += *byte as u32;
        }
    }
    assert_eq!(&tar[148..156], format!("{sum:06o}\0 ").as_bytes());
    assert_eq!(&tar[512..517], b"hello");
    assert!(tar[517..].iter().all(|byte| *byte == 0));
    finish_tar(&mut tar);
    assert_eq!(tar.len(), 2048);
}

#[test]
fn long_paths_are_refused() {
    let mut tar = Vec::new();
    let path = "x".repeat(101);
    assert!(matches!(append_tar_entry(&mut tar, &path, b""), Err(TarError::PathTooLong)));
    assert!(tar.is_empty());
    append_tar_entry(&mut tar, &path[1..], b"").unwrap();
    assert_eq!(tar.len(), 512);
}

#[test]
fn numbers_are_written_in_octal() {
    let mut out = Vec::new();
    write_tar_octal(&mut out, 8, 0o644);
    assert_eq!(out, b"0000644\0");
    let mut sum = Vec::new();
    write_tar_checksum(&mut sum, 0o1234);
    assert_eq!(sum, b"001234\0 ");
}

#[test]
fn long_numbers_keep_to_their_fields() {
    for (width, value, field) in [
        (8, 0o7777777, &b"7777777\0"[..]),
        (8, 0o10000000, b"1000000\0"),
        (8, 0o12345670, b"1234567\0"),
        (3, 0o7, b"07\0"),
        (1, 0o7, b"\0"),
    ] {
        let mut out = b"x".to_vec();
        write_tar_octal(&mut out, width, value);
        assert_eq!(out[1..], *field, "{value:o}");
    }
    for (checksum, field) in [
        (0o777777, b"777777\0 "),
        (0o1234567, b"123456\0 "),
        (0o12345670, b"123456\x000"),
        (0o77777777, b"777777\x007"),
    ] {
        let mut out = Vec::new();
        write_tar_checksum(&mut out, checksum);
        assert_eq!(out, field, "{checksum:o}");
    }
}

#[test]
fn entries_are_padded_to_blocks() {
    assert_eq!(tar_padding_len(0), 0);
    assert_eq!(tar_padding_len(1), 511);
    assert_eq!(tar_padding_len(512), 0);
    assert_eq!(next_tar_entry_offset(513), Some(1024));
    assert_eq!(next_tar_entry_offset(usize::MAX), None);
}

#[test]
fn ranges_have_twenty_digits() {
    assert_eq!(format_fixed_range(0), "00000000000000000000");
    assert_eq!(format_fixed_range(1536), "00000000000000001536");
    assert_eq!(format_fixed_range(usize::MAX), "18446744073709551615");
}

#[test]
fn header_values_are_trimmed() {
    let header = header();
    assert_eq!(metadata_value(&header.events, "type").as_deref(), Some("10-K"));
    assert_eq!(metadata_value(&header.events, "filer"), None);
    assert_eq!(metadata_value(&header.events, "Type"), None);
    assert_eq!(metadata_value(&[pair("a", "  ", 0), pair("a", "b", 0)], "a"), None);
    assert_eq!(metadata_date(&header.events, "period").as_deref(), Some("2023-12-31"));
    let raw = SubmissionEvent {
        event_type: SubmissionEventType::KeyValue,
        key: b"name".to_vec(),
        value: vec![b'A', 0xff],
        depth: 0,
    };
    assert_eq!(metadata_value(&[raw], "name").as_deref(), Some("A\u{fffd}"));
}

#[test]
fn dates_are_normalized() {
    assert_eq!(normalize_sec_date("20240131").as_deref(), Some("2024-01-31"));
    assert_eq!(normalize_sec_date("2024-01-31").as_deref(), Some("2024-01-31"));
    assert_eq!(normalize_sec_date("31 Jan 24!").as_deref(), Some("31 Jan 24!"));
    assert_eq!(normalize_sec_date("2024"), None);
    assert_eq!(normalize_sec_date(""), None);
}

#[test]
fn normalized_dates_stay() {
    for raw in ["20240131", "2024/01/31", "31 Jan 24!", "1-2-3-4-5-6-7-8"] {
        let date = normalize_sec_date(raw).unwrap();
        assert_eq!(normalize_sec_date(&date), Some(date));
    }
}

#[test]
fn archives_fill_blocks() {
    for size in [0usize, 1, 511, 512, 513] {
        let content = vec![7u8; size];
        let parsed = ParsedSgml {
            documents: vec![document("10-K", "1", "a.htm", &content)],
            doc_count: 1,
            uuencoded_count: 0,
        };
        let archive = assemble_archive(&parsed, &header(), &vec![content.clone()]).unwrap();
        assert_eq!(archive.bytes.len() % 512, 0);
        let listed = &archive.documents[0];
        assert_eq!(listed.tar_end_byte - listed.tar_start_byte, size as u64);
        let end = listed.tar_end_byte as usize;
        assert_eq!(&archive.bytes[end - size..end], &content[..]);
        assert!(archive.bytes[end..].iter().all(|byte| *byte == 0));
        assert_eq!(archive.bytes.len(), end.next_multiple_of(512) + 1024);
    }
}

#[test]
fn sequences_are_numbers() {
    assert_eq!(parse_sequence(b" 12\n"), Some(12));
    assert_eq!(parse_sequence(b"65536"), None);
    assert_eq!(parse_sequence(b"one"), None);
    assert_eq!(parse_sequence(b"\xff1"), None);
}

#[test]
fn ciks_are_listed_once() {
    let events = [
        pair("CIK", "7", 0),
        pair("cik", "x", 0),
        pair("cik", "3", 1),
        pair("Cik", " 7 ", 2),
        event(SubmissionEventType::SectionStart, "cik", "9", 0),
    ];
    assert_eq!(collect_ciks(&events), vec![7, 3]);
}

#[test]
fn xbrl_documents_are_told_by_type_and_name() {
    let looks = |document_type: &str, filename: &str| {
        document_looks_like_xbrl(&FilingDocument {
            sequence: 1,
            document_type: document_type.to_string(),
            filename: filename.to_string(),
            description: String::new(),
            tar_start_byte: 0,
            tar_end_byte: 0,
        })
    };
    assert!(looks("ex-101.SCH", "a"));
    assert!(looks("xml", "a"));
    assert!(looks("10-K", "A.XSD"));
    assert!(looks("10-K", "a_pre.pre"));
    assert!(!looks("10-K", "a.htm"));
    assert!(!looks("EX-10", "a.xml.txt"));
}

#[test]
fn json_strings_are_escaped() {
    let mut out = Vec::new();
    write_json_string(&mut out, b"a\"b\\c\n\x7f\xe9");
    assert_eq!(out, b"\"a\\\"b\\\\c\\u000A\x7f\\u00E9\"");
    let read: String = serde_json::from_slice(&out).unwrap();
    assert_eq!(
        read.chars().map(|c| c as u32 as u8).collect::<Vec<u8>>(),
        b"a\"b\\c\n\x7f\xe9"
    );
}

#[test]
fn repeated_keys_become_lists() {
    let header = header();
    let mut out = Vec::new();
    assert!(write_json_object_members(&mut out, &header.events, 0, header.events.len(), -1));
    assert_eq!(
        String::from_utf8(out).unwrap(),
        "\"type\":\" 10-K \",\"filing-date\":\"20240131\",\"period\":\"2023/12/31\",\
         \"filer\":[{\"CIK\":\"0000320193\"},{\"cik\":\" 42 \",\"Cik\":\"320193\"}]"
    );
    let mut none = Vec::new();
    assert!(!write_json_object_members(&mut none, &header.events, 4, 5, 5));
    write_json_object_range(&mut none, &header.events, 4, 5, 0);
    assert_eq!(none, b"{\"CIK\":\"0000320193\"}");
    assert_eq!(find_section_end(&header.events, 10, 3), 5);
    assert_eq!(find_section_end(&header.events, 5, 3), 5);
    assert_eq!(find_section_end(&header.events, 9, 6), 9);
    assert_eq!(find_section_end(&header.events, 3, 3), 3);
    assert_eq!(find_section_end(&header.events, 0, 3), 0);
    assert_eq!(find_section_end(&header.events, 1000, 3), 5);
    assert_eq!(find_section_end(&header.events, 1000, header.events.len() - 1), 1000);
    let mut empty = Vec::new();
    assert!(!write_json_object_members(&mut empty, &header.events, 5, 3, -1));
    assert!(empty.is_empty());
    write_json_object_range(&mut empty, &header.events, 1000, 3, -1);
    assert_eq!(empty, b"{}");
}

#[test]
fn unclosed_sections_reach_to_the_end() {
    let events = [
        event(SubmissionEventType::SectionStart, "filer", "", 0),
        pair("name", "A", 1),
        event(SubmissionEventType::SectionStart, "address", "", 1),
        pair("city", "B", 2),
    ];
    let mut out = Vec::new();
    assert!(write_json_object_members(&mut out, &events, 0, 4, -1));
    assert_eq!(
        out,
        b"\"filer\":{\"name\":\"A\",\"address\":{\"city\":\"B\"}}"
    );
}

#[test]
fn metadata_lists_documents() {
    let doc = PreparedDocument {
        doc_type: b"10-K".to_vec(),
        sequence: b"1".to_vec(),
        filename: b"a.htm".to_vec(),
        description: b"".to_vec(),
        start_byte: "00000000000000001024".to_string(),
        end_byte: "00000000000000001030".to_string(),
    };
    let object = "{\"type\":\"10-K\",\"sequence\":\"1\",\"filename\":\"a.htm\",\
                  \"description\":\"\",\"secsgml_start_byte\":\"00000000000000001024\",\
                  \"secsgml_end_byte\":\"00000000000000001030\"}";
    let mut out = Vec::new();
    write_document_metadata_json(&mut out, &doc);
    assert_eq!(String::from_utf8(out).unwrap(), object);
    let all = metadata_json(&[pair("type", "10-K", 0)], &[doc]);
    assert_eq!(
        String::from_utf8(all).unwrap(),
        format!("{{\"type\":\"10-K\",\"documents\":[{object}]}}\n")
    );
}

#[test]
fn names_are_made_safe() {
    assert_eq!(sanitize_filename(b" a/b:c?.htm ", 3), "a_b_c_.htm");
    assert_eq!(sanitize_filename(b"\xc3\xa9.txt", 3), "__.txt");
    assert_eq!(sanitize_filename(b"..hidden..", 3), "hidden");
    assert_eq!(sanitize_filename(b" .. ", 3), "3.txt");
    assert_eq!(sanitize_filename(b"", 12), "12.txt");
}

#[test]
fn safe_names_have_only_safe_characters() {
    let every_byte: Vec<u8> = (0..=255).collect();
    let name = sanitize_filename(&every_byte, 1);
    assert!(name.bytes().all(|byte| (0x20..=0x7e).contains(&byte)));
    assert!(!name.contains(['\\', '/', ':', '*', '?', '"', '<', '>', '|']));
}

#[test]
fn names_fit_into_headers() {
    assert_eq!(fit_tar_filename("a.txt", ""), "a.txt");
    assert_eq!(fit_tar_filename("a.txt", "-2"), "a-2.txt");
    assert_eq!(fit_tar_filename("noext", "-2"), "noext-2");
    assert_eq!(fit_tar_filename(".hidden", "-2"), ".hidden-2");
    let long = format!("{}.zst", "x".repeat(200));
    assert_eq!(fit_tar_filename(&long, ""), format!("{}.zst", "x".repeat(96)));
    assert_eq!(fit_tar_filename(&long, "-10"), format!("{}-10.zst", "x".repeat(93)));
    let odd = format!("a.{}", "y".repeat(120));
    assert_eq!(fit_tar_filename(&odd, "").len(), 100);
    assert_eq!(fit_tar_filename(&odd, "-2"), format!("a.{}-2", "y".repeat(96)));
}

#[test]
fn names_are_given_once() {
    let mut seen = StringHashSet::new();
    assert_eq!(unique_filename("a.zst", &mut seen), "a.zst");
    assert_eq!(unique_filename("a.zst", &mut seen), "a-2.zst");
    assert_eq!(unique_filename("a-2.zst", &mut seen), "a-2-2.zst");
    assert_eq!(unique_filename("a.zst", &mut seen), "a-3.zst");
    assert_eq!(unique_filename("b.zst", &mut seen), "b.zst");
}
