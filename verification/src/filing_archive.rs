//! A filing as a tar archive: the metadata first, then each document compressed. The metadata
//! says at which bytes of the archive each compressed document stands.
use std::collections::HashSet;

use vstd::arithmetic::power::pow;
use vstd::hash_set::StringHashSet;
use vstd::prelude::*;
use vstd::utf8::{
    decode_utf8, encode_utf8, is_ascii_chars, is_ascii_chars_encode_utf8, valid_utf8,
};

use crate::compression_util::{compress_bytes, zstd_content, zstd_frame, CompressionType};
use crate::encoding::{lossy_string, utf8_lossy, utf8_text};
use crate::filenames::{
    byte_len, law_tar_names, sanitize_filename, tar_names, unique_filename,
};
use crate::metadata_json::{
    document_json, documents_json, entries, json_escape, json_escapes, json_string, metadata_json,
    metadata_text, DocumentEntry, PreparedDocument,
};
use crate::numeral::{
    all_digits, decimal, law_decimal_reads_back, law_zeros_keep_value, lemma_numeral_len,
    padded_numeral, parse_unsigned, read_u16, read_u64, zero_padded,
};
use crate::sgml::{
    ParsedSgml, ParsedSubmissionMetadata, SgmlDocument, SubmissionEvent, SubmissionEventType,
};
use crate::tar::{
    append_tar_entry, finish_tar, lemma_entry_len, lemma_header_len, next_tar_entry_offset,
    padding, tar_entry, zeros, MAX_ENTRY_LEN,
};
use crate::text::{
    chars_of, has_prefix, has_suffix, is_digit, keep_digits, lemma_only_digits, lower,
    only_digits, opt_text, push_bytes, push_chars, same_bytes, same_str, string_of, texts,
    to_lower, to_upper, trim, trim_space, trim_str, upper,
};

verus! {

/// One document of an archive, as an index of filings lists it.
#[derive(Debug, Clone)]
pub struct FilingDocument {
    pub sequence: u16,
    pub document_type: String,
    pub filename: String,
    pub description: String,
    pub tar_start_byte: u64,
    pub tar_end_byte: u64,
}

/// Where a document's compressed content stands in an archive.
#[derive(Debug)]
pub struct DocumentByteRange {
    pub filename: String,
    pub start_byte: String,
    pub end_byte: String,
}

/// A filing as a tar archive, and what an index of filings wants to know of it.
#[derive(Debug)]
pub struct FilingTarArchive {
    pub bytes: Vec<u8>,
    pub document_count: usize,
    pub uuencoded_count: usize,
    pub document_ranges: Vec<DocumentByteRange>,
    pub submission_type: Option<String>,
    pub filing_date: Option<String>,
    pub report_date: Option<String>,
    pub contains_xbrl: bool,
    pub ciks: Vec<u64>,
    pub documents: Vec<FilingDocument>,
}

/// Why an archive cannot be built.
#[derive(Debug)]
pub enum ArchiveError {
    /// The compressor failed.
    Compression(std::io::Error),
    /// The positions in the archive do not fit a machine word.
    TooLarge,
    /// The entry with the given path is larger than its header can say.
    EntryTooLarge(String),
}

// ---------------------------------------------------------------------------
// What the header says
// ---------------------------------------------------------------------------

pub open spec fn has_key(event: SubmissionEvent, key: Seq<char>) -> bool {
    event.event_type == SubmissionEventType::KeyValue && event.key@ == encode_utf8(key)
}

/// The text of an event's value; an empty one counts as missing.
pub open spec fn event_text(event: SubmissionEvent) -> Option<Seq<char>> {
    let value = trim(utf8_lossy(event.value@));
    if value.len() == 0 {
        None
    } else {
        Some(value)
    }
}

/// The value of the first event with the given key.
pub open spec fn header_value(events: Seq<SubmissionEvent>, key: Seq<char>) -> Option<Seq<char>>
    decreases events.len(),
{
    if events.len() == 0 {
        None
    } else if has_key(events.first(), key) {
        event_text(events.first())
    } else {
        header_value(events.drop_first(), key)
    }
}

/// The value of the first event with the given key, if it is not empty.
pub fn metadata_value(events: &[SubmissionEvent], key: &str) -> (out: Option<String>)
    ensures
        opt_text(out) == header_value(events@, key@),
{
    let key_bytes = key.as_bytes();
    let mut i: usize = 0;
    assert(events@.skip(0) =~= events@);
    while i < events.len()
        invariant
            i <= events@.len(),
            key_bytes@ == encode_utf8(key@),
            header_value(events@.skip(i as int), key@) == header_value(events@, key@),
        decreases events@.len() - i,
    {
        assert(events@.skip(i as int).first() == events@[i as int]);
        assert(events@.skip(i as int).drop_first() =~= events@.skip(i + 1));
        if events[i].event_type == SubmissionEventType::KeyValue && same_bytes(
            &events[i].key,
            key_bytes,
        ) {
            let text = lossy_string(&events[i].value);
            let value = trim_str(text.as_str());
            if value.as_str().is_empty() {
                return None;
            }
            return Some(value);
        }
        i += 1;
    }
    None
}

/// A date with hyphens: from one with eight digits in whatever form, or the text itself where it
/// takes ten bytes.
pub open spec fn hyphenated_date(raw: Seq<char>) -> Option<Seq<char>> {
    let digits = only_digits(raw);
    if digits.len() == 8 {
        Some(
            digits.subrange(0, 4) + seq!['-'] + digits.subrange(4, 6) + seq!['-']
                + digits.subrange(6, 8),
        )
    } else if encode_utf8(raw).len() == 10 {
        Some(raw)
    } else {
        None
    }
}

proof fn lemma_all_digits_kept(s: Seq<char>)
    requires
        forall|i: int| 0 <= i < s.len() ==> is_digit(#[trigger] s[i]),
    ensures
        only_digits(s) == s,
    decreases s.len(),
{
    reveal(Seq::filter);
    if s.len() > 0 {
        lemma_all_digits_kept(s.drop_last());
        assert(s.drop_last().push(s.last()) =~= s);
    }
}

/// A date that is put into the form with hyphens once stays as it is.
pub proof fn law_dates_are_stable(raw: Seq<char>)
    ensures
        hyphenated_date(raw) matches Some(date) ==> hyphenated_date(date) == Some(date),
{
    let digits = only_digits(raw);
    if digits.len() == 8 {
        let pred = |x: char| is_digit(x);
        let year = digits.subrange(0, 4);
        let month = digits.subrange(4, 6);
        let day = digits.subrange(6, 8);
        let hyphen = seq!['-'];
        let date = year + hyphen + month + hyphen + day;
        lemma_only_digits(raw);
        lemma_all_digits_kept(year);
        lemma_all_digits_kept(month);
        lemma_all_digits_kept(day);
        assert(only_digits(hyphen) =~= Seq::<char>::empty()) by {
            reveal(Seq::filter);
            assert(hyphen.drop_last() =~= Seq::<char>::empty());
        }
        Seq::filter_distributes_over_add(year + hyphen + month + hyphen, day, pred);
        Seq::filter_distributes_over_add(year + hyphen + month, hyphen, pred);
        Seq::filter_distributes_over_add(year + hyphen, month, pred);
        Seq::filter_distributes_over_add(year, hyphen, pred);
        assert(only_digits(date) =~= digits);
    }
}

/// The date with hyphens, if the text holds one.
pub fn normalize_sec_date(raw: &str) -> (out: Option<String>)
    ensures
        opt_text(out) == hyphenated_date(raw@),
{
    let digits = keep_digits(&chars_of(raw));
    if digits.len() == 8 {
        let mut date: Vec<char> = Vec::new();
        date.push(digits[0]);
        date.push(digits[1]);
        date.push(digits[2]);
        date.push(digits[3]);
        date.push('-');
        date.push(digits[4]);
        date.push(digits[5]);
        date.push('-');
        date.push(digits[6]);
        date.push(digits[7]);
        assert(date@ =~= hyphenated_date(raw@)->0);
        Some(string_of(&date))
    } else if raw.as_bytes().len() == 10 {
        Some(raw.to_owned())
    } else {
        None
    }
}

pub open spec fn header_date(events: Seq<SubmissionEvent>, key: Seq<char>) -> Option<Seq<char>> {
    match header_value(events, key) {
        Some(raw) => hyphenated_date(raw),
        None => None,
    }
}

/// The date that the first event with the given key holds.
pub fn metadata_date(events: &[SubmissionEvent], key: &str) -> (out: Option<String>)
    ensures
        opt_text(out) == header_date(events@, key@),
{
    match metadata_value(events, key) {
        Some(raw) => normalize_sec_date(raw.as_str()),
        None => None,
    }
}

/// The number that a sequence field holds.
pub open spec fn sequence_value(bytes: Seq<u8>) -> Option<nat> {
    if valid_utf8(bytes) {
        parse_unsigned(trim(decode_utf8(bytes)), u16::MAX as nat)
    } else {
        None
    }
}

pub fn parse_sequence(bytes: &[u8]) -> (out: Option<u16>)
    ensures
        match out {
            Some(n) => sequence_value(bytes@) == Some(n as nat),
            None => sequence_value(bytes@) is None,
        },
{
    match utf8_text(bytes) {
        Some(text) => read_u16(trim_space(&chars_of(text))),
        None => None,
    }
}

/// The sequence of the document at `index`: what its field says, or its place in the filing.
pub open spec fn sequence_of(bytes: Seq<u8>, index: nat) -> nat {
    match sequence_value(bytes) {
        Some(n) => n,
        None => (index + 1) % 65536,
    }
}

pub open spec fn is_cik_key(key: Seq<u8>) -> bool {
    &&& key.len() == 3
    &&& (key[0] == 99 || key[0] == 67)
    &&& (key[1] == 105 || key[1] == 73)
    &&& (key[2] == 107 || key[2] == 75)
}

/// The number that a header event gives as a company's.
pub open spec fn event_cik(event: SubmissionEvent) -> Option<nat> {
    if event.event_type == SubmissionEventType::KeyValue && is_cik_key(event.key@) {
        parse_unsigned(trim(utf8_lossy(event.value@)), u64::MAX as nat)
    } else {
        None
    }
}

/// The companies that a header names, each once, in the order of their first mention.
pub open spec fn header_ciks(events: Seq<SubmissionEvent>) -> Seq<u64>
    decreases events.len(),
{
    if events.len() == 0 {
        Seq::empty()
    } else {
        let earlier = header_ciks(events.drop_last());
        match event_cik(events.last()) {
            Some(cik) => if earlier.contains(cik as u64) {
                earlier
            } else {
                earlier.push(cik as u64)
            },
            None => earlier,
        }
    }
}

/// No company is named twice.
pub proof fn law_ciks_are_distinct(events: Seq<SubmissionEvent>)
    ensures
        header_ciks(events).no_duplicates(),
    decreases events.len(),
{
    if events.len() > 0 {
        law_ciks_are_distinct(events.drop_last());
    }
}

/// The companies that a header names.
pub fn collect_ciks(events: &[SubmissionEvent]) -> (ciks: Vec<u64>)
    ensures
        ciks@ == header_ciks(events@),
        ciks@.no_duplicates(),
{
    let mut seen: HashSet<u64> = HashSet::new();
    let mut ciks: Vec<u64> = Vec::new();
    let mut i: usize = 0;
    while i < events.len()
        invariant
            i <= events@.len(),
            ciks@ == header_ciks(events@.take(i as int)),
            forall|c: u64| seen@.contains(c) <==> ciks@.contains(c),
        decreases events@.len() - i,
    {
        broadcast use vstd::std_specs::hash::group_hash_axioms;

        let ghost earlier = ciks@;
        let event = &events[i];
        assert(events@.take(i + 1).drop_last() =~= events@.take(i as int));
        assert(events@.take(i + 1).last() == *event);
        if event.event_type == SubmissionEventType::KeyValue && event.key.len() == 3 && (
        event.key[0] == 99 || event.key[0] == 67) && (event.key[1] == 105 || event.key[1] == 73)
            && (event.key[2] == 107 || event.key[2] == 75) {
            let text = lossy_string(&event.value);
            match read_u64(trim_space(&chars_of(text.as_str()))) {
                Some(cik) => {
                    if seen.insert(cik) {
                        ciks.push(cik);
                        assert forall|c: u64| seen@.contains(c) <==> ciks@.contains(c) by {
                            if earlier.contains(c) {
                                let j = choose|j: int| 0 <= j < earlier.len() && earlier[j] == c;
                                assert(ciks@[j] == c);
                            }
                            if c == cik {
                                assert(ciks@[earlier.len() as int] == c);
                            }
                        }
                    }
                },
                None => {},
            }
        }
        i += 1;
    }
    assert(events@.take(i as int) =~= events@);
    proof {
        law_ciks_are_distinct(events@);
    }
    ciks
}

/// Whether a document's type or name says that it holds XBRL.
pub open spec fn looks_like_xbrl(document_type: Seq<char>, filename: Seq<char>) -> bool {
    let t = upper(document_type);
    let f = lower(filename);
    ||| "EX-101"@.is_prefix_of(t)
    ||| t == "XML"@
    ||| ".xbrl"@.is_suffix_of(f)
    ||| ".xml"@.is_suffix_of(f)
    ||| ".xsd"@.is_suffix_of(f)
    ||| ".cal"@.is_suffix_of(f)
    ||| ".def"@.is_suffix_of(f)
    ||| ".lab"@.is_suffix_of(f)
    ||| ".pre"@.is_suffix_of(f)
}

/// Whether a document's type or name says that it holds XBRL.
pub fn document_looks_like_xbrl(doc: &FilingDocument) -> (r: bool)
    ensures
        r == looks_like_xbrl(doc.document_type@, doc.filename@),
{
    let document_type = to_upper(&chars_of(doc.document_type.as_str()));
    let filename = to_lower(&chars_of(doc.filename.as_str()));
    has_prefix(&document_type, &chars_of("EX-101")) || same_str(
        string_of(&document_type).as_str(),
        "XML",
    ) || has_suffix(&filename, &chars_of(".xbrl")) || has_suffix(&filename, &chars_of(".xml"))
        || has_suffix(&filename, &chars_of(".xsd")) || has_suffix(&filename, &chars_of(".cal"))
        || has_suffix(&filename, &chars_of(".def")) || has_suffix(&filename, &chars_of(".lab"))
        || has_suffix(&filename, &chars_of(".pre"))
}

// ---------------------------------------------------------------------------
// The layout of an archive
// ---------------------------------------------------------------------------

/// The first multiple of 512 that is not below `position`.
pub open spec fn block_end(position: int) -> int {
    position + padding(position)
}

/// Where the entry of document `i` begins, behind a metadata of `metadata_len` bytes; the number
/// of the documents gives the end of the last one.
pub open spec fn entry_position(metadata_len: nat, contents: Seq<Seq<u8>>, i: nat) -> int
    decreases i,
{
    if i == 0 {
        block_end(512 + metadata_len as int)
    } else {
        block_end(
            entry_position(metadata_len, contents, (i - 1) as nat) + 512 + contents[i - 1].len(),
        )
    }
}

/// Where the content of document `i` begins.
pub open spec fn content_start(metadata_len: nat, contents: Seq<Seq<u8>>, i: nat) -> int {
    entry_position(metadata_len, contents, i) + 512
}

/// Where the content of document `i` ends.
pub open spec fn content_end(metadata_len: nat, contents: Seq<Seq<u8>>, i: nat) -> int {
    content_start(metadata_len, contents, i) + contents[i as int].len()
}

/// A position as the metadata gives it: twenty digits.
pub open spec fn range_text(position: nat) -> Seq<char> {
    zero_padded(decimal(position), 20)
}

pub open spec fn range_placeholder() -> Seq<char> {
    "99999999999999999999"@
}

pub open spec fn document_entry(
    doc: SgmlDocument,
    start: Seq<char>,
    end: Seq<char>,
) -> DocumentEntry {
    DocumentEntry {
        doc_type: doc.doc_type@,
        sequence: doc.sequence@,
        filename: doc.filename@,
        description: doc.description@,
        start_byte: start,
        end_byte: end,
    }
}

/// The documents of the metadata before their positions are known.
pub open spec fn unplaced_entries(docs: Seq<SgmlDocument>) -> Seq<DocumentEntry> {
    docs.map_values(
        |d: SgmlDocument| document_entry(d, range_placeholder(), range_placeholder()),
    )
}

/// The documents of the metadata with their positions.
pub open spec fn placed_entries(
    docs: Seq<SgmlDocument>,
    metadata_len: nat,
    contents: Seq<Seq<u8>>,
) -> Seq<DocumentEntry> {
    Seq::new(
        docs.len(),
        |i: int|
            document_entry(
                docs[i],
                range_text(content_start(metadata_len, contents, i as nat) as nat),
                range_text(content_end(metadata_len, contents, i as nat) as nat),
            ),
    )
}

/// How long the metadata is: the positions do not change that.
pub open spec fn metadata_len(events: Seq<SubmissionEvent>, docs: Seq<SgmlDocument>) -> nat {
    metadata_text(events, unplaced_entries(docs)).len()
}

/// The metadata of an archive.
pub open spec fn archive_metadata(
    events: Seq<SubmissionEvent>,
    docs: Seq<SgmlDocument>,
    contents: Seq<Seq<u8>>,
) -> Seq<u8> {
    metadata_text(events, placed_entries(docs, metadata_len(events, docs), contents))
}

pub open spec fn document_names(docs: Seq<SgmlDocument>) -> Seq<Seq<u8>> {
    docs.map_values(|d: SgmlDocument| d.filename@)
}

/// The first `n` entries behind the metadata.
pub open spec fn document_tar(
    names: Seq<Seq<char>>,
    contents: Seq<Seq<u8>>,
    n: nat,
) -> Seq<u8>
    decreases n,
{
    if n == 0 {
        Seq::empty()
    } else {
        document_tar(names, contents, (n - 1) as nat) + tar_entry(
            encode_utf8(names[n - 1]),
            contents[n - 1],
        )
    }
}

/// The bytes of an archive with the given metadata and the given documents.
#[verifier::opaque]
pub open spec fn tar_bytes(
    metadata: Seq<u8>,
    names: Seq<Seq<char>>,
    contents: Seq<Seq<u8>>,
) -> Seq<u8> {
    tar_entry(encode_utf8("metadata.json"@), metadata) + document_tar(
        names,
        contents,
        contents.len(),
    ) + zeros(1024)
}

/// The bytes of the archive of a filing.
pub open spec fn archive_bytes(
    events: Seq<SubmissionEvent>,
    docs: Seq<SgmlDocument>,
    contents: Seq<Seq<u8>>,
) -> Seq<u8> {
    tar_bytes(
        archive_metadata(events, docs, contents),
        tar_names(document_names(docs)),
        contents,
    )
}

/// Where the last entry of an archive ends.
pub open spec fn archive_end(
    events: Seq<SubmissionEvent>,
    docs: Seq<SgmlDocument>,
    contents: Seq<Seq<u8>>,
) -> int {
    entry_position(metadata_len(events, docs), contents, docs.len())
}

/// The name of the first of the given entries, from `i` on, that is too large for its header.
pub open spec fn first_oversized(
    names: Seq<Seq<char>>,
    contents: Seq<Seq<u8>>,
    i: int,
) -> Option<Seq<char>>
    decreases contents.len() - i,
{
    if i >= contents.len() {
        None
    } else if contents[i].len() > MAX_ENTRY_LEN {
        Some(names[i])
    } else {
        first_oversized(names, contents, i + 1)
    }
}

/// The name of the first entry of an archive that is too large for its header.
pub open spec fn oversized_entry(
    events: Seq<SubmissionEvent>,
    docs: Seq<SgmlDocument>,
    contents: Seq<Seq<u8>>,
) -> Option<Seq<char>> {
    if metadata_len(events, docs) > MAX_ENTRY_LEN {
        Some("metadata.json"@)
    } else {
        first_oversized(tar_names(document_names(docs)), contents, 0)
    }
}

// ---------------------------------------------------------------------------
// Facts about the layout
// ---------------------------------------------------------------------------

/// A position is written with twenty digits, whatever it is.
proof fn lemma_range_text(position: nat)
    requires
        position <= u64::MAX,
    ensures
        range_text(position).len() == 20,
        all_digits(range_text(position)),
{
    law_decimal_reads_back(position);
    law_zeros_keep_value(decimal(position), 20);
    assert(pow(10, 20) == 100000000000000000000) by {
        reveal_with_fuel(pow, 21);
    }
    lemma_numeral_len(position, 10, 20);
}

/// The text of a position reads as the position.
pub proof fn law_range_text_reads_back(position: nat)
    requires
        position <= u64::MAX,
    ensures
        range_text(position).len() == 20,
        parse_unsigned(range_text(position), u64::MAX as nat) == Some(position),
{
    lemma_range_text(position);
    law_decimal_reads_back(position);
    law_zeros_keep_value(decimal(position), 20);
}

proof fn lemma_digits_escape(s: Seq<u8>)
    requires
        forall|i: int| 0 <= i < s.len() ==> 48 <= #[trigger] s[i] <= 57,
    ensures
        json_escapes(s) == s,
    decreases s.len(),
{
    if s.len() > 0 {
        lemma_digits_escape(s.drop_last());
        assert(json_escape(s.last()) == seq![s.last()]);
        assert(json_escapes(s) =~= s);
    }
}

proof fn lemma_digits_json_len(s: Seq<char>)
    requires
        all_digits(s),
    ensures
        json_string(encode_utf8(s)).len() == s.len() + 2,
{
    assert(is_ascii_chars(s));
    is_ascii_chars_encode_utf8(s);
    assert forall|i: int| 0 <= i < encode_utf8(s).len() implies 48 <= #[trigger] encode_utf8(s)[i]
        <= 57 by {
        assert(s[i] as u8 == encode_utf8(s)[i]);
    }
    lemma_digits_escape(encode_utf8(s));
}

/// Two lists of documents that differ in their positions only, all twenty digits long.
spec fn differ_in_ranges(a: Seq<DocumentEntry>, b: Seq<DocumentEntry>) -> bool {
    &&& a.len() == b.len()
    &&& forall|i: int| #![trigger a[i], b[i]]
        0 <= i < a.len() ==> {
            &&& a[i].doc_type == b[i].doc_type
            &&& a[i].sequence == b[i].sequence
            &&& a[i].filename == b[i].filename
            &&& a[i].description == b[i].description
            &&& all_digits(a[i].start_byte) && a[i].start_byte.len() == 20
            &&& all_digits(a[i].end_byte) && a[i].end_byte.len() == 20
            &&& all_digits(b[i].start_byte) && b[i].start_byte.len() == 20
            &&& all_digits(b[i].end_byte) && b[i].end_byte.len() == 20
        }
}

proof fn lemma_documents_len(a: Seq<DocumentEntry>, b: Seq<DocumentEntry>)
    requires
        differ_in_ranges(a, b),
    ensures
        documents_json(a).len() == documents_json(b).len(),
    decreases a.len(),
{
    if a.len() > 0 {
        assert(differ_in_ranges(a.drop_last(), b.drop_last())) by {
            assert forall|i: int|
                #![trigger a.drop_last()[i], b.drop_last()[i]]
                0 <= i < a.drop_last().len() implies a.drop_last()[i] == a[i] && b.drop_last()[i]
                == b[i] by {}
        }
        lemma_documents_len(a.drop_last(), b.drop_last());
        let x = a.last();
        let y = b.last();
        assert(x == a[a.len() - 1] && y == b[b.len() - 1]);
        lemma_digits_json_len(x.start_byte);
        lemma_digits_json_len(x.end_byte);
        lemma_digits_json_len(y.start_byte);
        lemma_digits_json_len(y.end_byte);
        assert(document_json(x).len() == document_json(y).len());
    }
}

proof fn lemma_positions_grow(metadata_len: nat, contents: Seq<Seq<u8>>, i: nat, n: nat)
    requires
        i <= n <= contents.len(),
    ensures
        entry_position(metadata_len, contents, i) + 512 * (n - i) <= entry_position(
            metadata_len,
            contents,
            n,
        ),
        i < n ==> content_end(metadata_len, contents, i) <= entry_position(
            metadata_len,
            contents,
            n,
        ),
        entry_position(metadata_len, contents, n) % 512 == 0,
        entry_position(metadata_len, contents, n) >= 512 + metadata_len,
    decreases n,
{
    if n > 0 {
        if i < n {
            lemma_positions_grow(metadata_len, contents, i, (n - 1) as nat);
        } else {
            lemma_positions_grow(metadata_len, contents, (i - 1) as nat, (n - 1) as nat);
        }
    }
}

/// Writing the positions into the metadata leaves its length as it was.
pub proof fn law_positions_keep_metadata_len(
    events: Seq<SubmissionEvent>,
    docs: Seq<SgmlDocument>,
    contents: Seq<Seq<u8>>,
)
    requires
        contents.len() == docs.len(),
        archive_end(events, docs, contents) <= usize::MAX,
    ensures
        archive_metadata(events, docs, contents).len() == metadata_len(events, docs),
{
    let len = metadata_len(events, docs);
    let a = unplaced_entries(docs);
    let b = placed_entries(docs, len, contents);
    reveal_strlit("99999999999999999999");
    assert forall|i: int| #![trigger a[i], b[i]] 0 <= i < a.len() implies {
        &&& all_digits(b[i].start_byte) && b[i].start_byte.len() == 20
        &&& all_digits(b[i].end_byte) && b[i].end_byte.len() == 20
    } by {
        lemma_positions_grow(len, contents, i as nat, docs.len());
        lemma_positions_grow(len, contents, 0, i as nat);
        lemma_range_text(content_start(len, contents, i as nat) as nat);
        lemma_range_text(content_end(len, contents, i as nat) as nat);
    }
    assert(all_digits(range_placeholder()));
    assert(differ_in_ranges(a, b));
    lemma_documents_len(a, b);
}

proof fn lemma_oversized(names: Seq<Seq<char>>, contents: Seq<Seq<u8>>, i: int)
    requires
        0 <= i <= contents.len(),
    ensures
        first_oversized(names, contents, i) is None ==> forall|j: int|
            i <= j < contents.len() ==> (#[trigger] contents[j]).len() <= MAX_ENTRY_LEN,
    decreases contents.len() - i,
{
    if i < contents.len() {
        lemma_oversized(names, contents, i + 1);
    }
}

proof fn lemma_padding_shift(position: int, len: int)
    requires
        position % 512 == 0,
    ensures
        padding(position + 512 + len) == padding(len),
{
    assert((position + 512 + len) % 512 == len % 512);
}

/// The entries of an archive begin where the layout says.
proof fn lemma_prefix_len(
    metadata: Seq<u8>,
    names: Seq<Seq<char>>,
    contents: Seq<Seq<u8>>,
    n: nat,
)
    requires
        n <= contents.len() == names.len(),
        metadata.len() <= MAX_ENTRY_LEN,
        forall|j: int| 0 <= j < contents.len() ==> (#[trigger] contents[j]).len() <= MAX_ENTRY_LEN,
        forall|j: int| 0 <= j < names.len() ==> byte_len(#[trigger] names[j]) <= 100,
    ensures
        tar_entry(encode_utf8("metadata.json"@), metadata).len() + document_tar(
            names,
            contents,
            n,
        ).len() == entry_position(metadata.len(), contents, n),
    decreases n,
{
    assert(encode_utf8("metadata.json"@).len() <= 100) by {
        reveal_strlit("metadata.json");
        is_ascii_chars_encode_utf8("metadata.json"@);
    }
    lemma_entry_len(encode_utf8("metadata.json"@), metadata);
    if n > 0 {
        lemma_prefix_len(metadata, names, contents, (n - 1) as nat);
        lemma_entry_len(encode_utf8(names[n - 1]), contents[n - 1]);
        lemma_positions_grow(metadata.len(), contents, 0, (n - 1) as nat);
        lemma_padding_shift(
            entry_position(metadata.len(), contents, (n - 1) as nat),
            contents[n - 1].len() as int,
        );
    } else {
        lemma_padding_shift(0, metadata.len() as int);
    }
}

proof fn lemma_tar_prefix(names: Seq<Seq<char>>, contents: Seq<Seq<u8>>, i: nat, n: nat)
    requires
        i <= n,
    ensures
        document_tar(names, contents, i).len() <= document_tar(names, contents, n).len(),
        document_tar(names, contents, n).take(document_tar(names, contents, i).len() as int)
            == document_tar(names, contents, i),
    decreases n,
{
    let whole = document_tar(names, contents, n);
    let part = document_tar(names, contents, i);
    if i < n {
        let shorter = document_tar(names, contents, (n - 1) as nat);
        lemma_tar_prefix(names, contents, i, (n - 1) as nat);
        assert(whole.take(part.len() as int) =~= shorter.take(part.len() as int));
    } else {
        assert(whole.take(part.len() as int) =~= part);
    }
}

proof fn lemma_entry_content(path: Seq<u8>, content: Seq<u8>)
    requires
        path.len() <= 100,
        content.len() <= MAX_ENTRY_LEN,
    ensures
        tar_entry(path, content).len() >= 512 + content.len(),
        tar_entry(path, content).subrange(512, 512 + content.len() as int) == content,
{
    lemma_header_len(path, content.len());
    assert(tar_entry(path, content).subrange(512, 512 + content.len() as int) =~= content);
}

proof fn lemma_slice(
    front: Seq<u8>,
    all: Seq<u8>,
    tail: Seq<u8>,
    before: Seq<u8>,
    entry: Seq<u8>,
    content: Seq<u8>,
)
    requires
        before.len() + entry.len() <= all.len(),
        all.take((before.len() + entry.len()) as int) == before + entry,
        entry.len() >= 512 + content.len(),
        entry.subrange(512, 512 + content.len() as int) == content,
    ensures
        ({
            let start = front.len() + before.len() + 512int;
            (front + all + tail).subrange(start, start + content.len()) == content
        }),
{
    let start = front.len() + before.len() + 512int;
    let bytes = front + all + tail;
    let part = before + entry;
    assert forall|k: int| 0 <= k < content.len() implies bytes[start + k] == content[k] by {
        let at = before.len() + 512int + k;
        assert(bytes[start + k] == all[at]);
        assert(all.take(part.len() as int)[at] == all[at]);
        assert(part[at] == entry[512 + k]);
        assert(entry.subrange(512, 512 + content.len() as int)[k] == entry[512 + k]);
    }
    assert(bytes.subrange(start, start + content.len()) =~= content);
}

proof fn lemma_content_range(
    metadata: Seq<u8>,
    names: Seq<Seq<char>>,
    contents: Seq<Seq<u8>>,
    i: int,
)
    requires
        0 <= i < contents.len() == names.len(),
        metadata.len() <= MAX_ENTRY_LEN,
        forall|j: int| 0 <= j < contents.len() ==> (#[trigger] contents[j]).len() <= MAX_ENTRY_LEN,
        forall|j: int| 0 <= j < names.len() ==> byte_len(#[trigger] names[j]) <= 100,
    ensures
        ({
            let bytes = tar_bytes(metadata, names, contents);
            let start = content_start(metadata.len(), contents, i as nat);
            let end = content_end(metadata.len(), contents, i as nat);
            &&& 0 <= start <= end <= bytes.len()
            &&& bytes.subrange(start, end) == contents[i]
        }),
{
    reveal(tar_bytes);
    let front = tar_entry(encode_utf8("metadata.json"@), metadata);
    let before = document_tar(names, contents, i as nat);
    let all = document_tar(names, contents, contents.len());
    let entry = tar_entry(encode_utf8(names[i]), contents[i]);
    lemma_prefix_len(metadata, names, contents, i as nat);
    lemma_prefix_len(metadata, names, contents, contents.len());
    lemma_positions_grow(metadata.len(), contents, i as nat, contents.len());
    lemma_positions_grow(metadata.len(), contents, 0, i as nat);
    lemma_tar_prefix(names, contents, (i + 1) as nat, contents.len());
    lemma_entry_content(encode_utf8(names[i]), contents[i]);
    assert(document_tar(names, contents, (i + 1) as nat) == before + entry);
    lemma_slice(front, all, zeros(1024), before, entry, contents[i]);
}

/// The bytes of an archive between the two positions that its metadata gives for a document are
/// that document's compressed content.
pub proof fn law_ranges_hold_contents(
    events: Seq<SubmissionEvent>,
    docs: Seq<SgmlDocument>,
    contents: Seq<Seq<u8>>,
    i: int,
)
    requires
        contents.len() == docs.len(),
        archive_end(events, docs, contents) <= usize::MAX,
        oversized_entry(events, docs, contents) is None,
        0 <= i < docs.len(),
    ensures
        ({
            let start = content_start(metadata_len(events, docs), contents, i as nat);
            let end = content_end(metadata_len(events, docs), contents, i as nat);
            &&& 0 <= start <= end <= archive_bytes(events, docs, contents).len()
            &&& archive_bytes(events, docs, contents).subrange(start, end) == contents[i]
        }),
{
    lemma_parts_fit(events, docs, contents);
    lemma_content_range(
        archive_metadata(events, docs, contents),
        tar_names(document_names(docs)),
        contents,
        i,
    );
}

proof fn lemma_tar_len(metadata: Seq<u8>, names: Seq<Seq<char>>, contents: Seq<Seq<u8>>)
    requires
        contents.len() == names.len(),
        metadata.len() <= MAX_ENTRY_LEN,
        forall|j: int| 0 <= j < contents.len() ==> (#[trigger] contents[j]).len() <= MAX_ENTRY_LEN,
        forall|j: int| 0 <= j < names.len() ==> byte_len(#[trigger] names[j]) <= 100,
    ensures
        ({
            let bytes = tar_bytes(metadata, names, contents);
            let end = entry_position(metadata.len(), contents, contents.len());
            &&& bytes.len() == end + 1024
            &&& bytes.len() % 512 == 0
            &&& bytes.skip(end) == zeros(1024)
        }),
{
    reveal(tar_bytes);
    lemma_positions_grow(metadata.len(), contents, 0, contents.len());
    lemma_prefix_len(metadata, names, contents, contents.len());
    let end = entry_position(metadata.len(), contents, contents.len());
    assert(tar_bytes(metadata, names, contents).skip(end) =~= zeros(1024));
}

/// The parts of an archive fit their headers.
proof fn lemma_parts_fit(
    events: Seq<SubmissionEvent>,
    docs: Seq<SgmlDocument>,
    contents: Seq<Seq<u8>>,
)
    requires
        contents.len() == docs.len(),
        archive_end(events, docs, contents) <= usize::MAX,
        oversized_entry(events, docs, contents) is None,
    ensures
        archive_metadata(events, docs, contents).len() == metadata_len(events, docs),
        metadata_len(events, docs) <= MAX_ENTRY_LEN,
        tar_names(document_names(docs)).len() == contents.len(),
        forall|j: int| 0 <= j < contents.len() ==> (#[trigger] contents[j]).len() <= MAX_ENTRY_LEN,
        forall|j: int|
            0 <= j < contents.len() ==> byte_len(#[trigger] tar_names(document_names(docs))[j])
                <= 100,
{
    let names = tar_names(document_names(docs));
    law_positions_keep_metadata_len(events, docs, contents);
    lemma_positions_grow(metadata_len(events, docs), contents, 0, docs.len());
    law_tar_names(document_names(docs));
    lemma_oversized(names, contents, 0);
}

/// An archive fills whole blocks, and ends with two blocks of zeros.
pub proof fn law_archive_fills_blocks(
    events: Seq<SubmissionEvent>,
    docs: Seq<SgmlDocument>,
    contents: Seq<Seq<u8>>,
)
    requires
        contents.len() == docs.len(),
        archive_end(events, docs, contents) <= usize::MAX,
        oversized_entry(events, docs, contents) is None,
    ensures
        archive_bytes(events, docs, contents).len() == archive_end(events, docs, contents) + 1024,
        archive_bytes(events, docs, contents).len() % 512 == 0,
        archive_bytes(events, docs, contents).skip(archive_end(events, docs, contents)) == zeros(
            1024,
        ),
{
    lemma_parts_fit(events, docs, contents);
    lemma_tar_len(
        archive_metadata(events, docs, contents),
        tar_names(document_names(docs)),
        contents,
    );
}

// ---------------------------------------------------------------------------
// Building
// ---------------------------------------------------------------------------

pub open spec fn byte_seqs(v: Seq<Vec<u8>>) -> Seq<Seq<u8>> {
    v.map_values(|c: Vec<u8>| c@)
}

/// What the index lists for document `i`.
pub open spec fn lists_document(
    listed: FilingDocument,
    docs: Seq<SgmlDocument>,
    metadata_len: nat,
    contents: Seq<Seq<u8>>,
    i: int,
) -> bool {
    &&& listed.sequence == sequence_of(docs[i].sequence@, i as nat)
    &&& listed.document_type@ == utf8_lossy(docs[i].doc_type@)
    &&& listed.filename@ == utf8_lossy(docs[i].filename@)
    &&& listed.description@ == utf8_lossy(docs[i].description@)
    &&& listed.tar_start_byte == content_start(metadata_len, contents, i as nat)
    &&& listed.tar_end_byte == content_end(metadata_len, contents, i as nat)
}

/// What the archive says of the range of document `i`.
pub open spec fn gives_range(
    range: DocumentByteRange,
    docs: Seq<SgmlDocument>,
    metadata_len: nat,
    contents: Seq<Seq<u8>>,
    i: int,
) -> bool {
    &&& range.filename@ == utf8_lossy(docs[i].filename@)
    &&& range.start_byte@ == range_text(content_start(metadata_len, contents, i as nat) as nat)
    &&& range.end_byte@ == range_text(content_end(metadata_len, contents, i as nat) as nat)
}

impl FilingTarArchive {
    /// The archive of the given filing with the given compressed contents.
    pub open spec fn is_archive_of(
        self,
        parsed: ParsedSgml,
        events: Seq<SubmissionEvent>,
        contents: Seq<Seq<u8>>,
    ) -> bool {
        let docs = parsed.documents@;
        let len = metadata_len(events, docs);
        &&& self.bytes@ == archive_bytes(events, docs, contents)
        &&& self.document_count == parsed.doc_count
        &&& self.uuencoded_count == parsed.uuencoded_count
        &&& self.document_ranges@.len() == docs.len()
        &&& forall|i: int|
            0 <= i < docs.len() ==> gives_range(
                #[trigger] self.document_ranges@[i],
                docs,
                len,
                contents,
                i,
            )
        &&& opt_text(self.submission_type) == header_value(events, "type"@)
        &&& opt_text(self.filing_date) == header_date(events, "filing-date"@)
        &&& opt_text(self.report_date) == header_date(events, "period"@)
        &&& self.contains_xbrl == exists|i: int|
            0 <= i < docs.len() && looks_like_xbrl(
                utf8_lossy((#[trigger] docs[i]).doc_type@),
                utf8_lossy(docs[i].filename@),
            )
        &&& self.ciks@ == header_ciks(events)
        &&& self.documents@.len() == docs.len()
        &&& forall|i: int|
            0 <= i < docs.len() ==> lists_document(
                #[trigger] self.documents@[i],
                docs,
                len,
                contents,
                i,
            )
    }
}

/// What comes of the given compressed contents.
pub open spec fn archive_outcome(
    r: Result<FilingTarArchive, ArchiveError>,
    parsed: ParsedSgml,
    events: Seq<SubmissionEvent>,
    contents: Seq<Seq<u8>>,
) -> bool {
    let docs = parsed.documents@;
    if archive_end(events, docs, contents) > usize::MAX {
        r matches Err(ArchiveError::TooLarge)
    } else {
        match oversized_entry(events, docs, contents) {
            Some(path) => r matches Err(ArchiveError::EntryTooLarge(p)) && p@ == path,
            None => r matches Ok(archive) && archive.is_archive_of(parsed, events, contents),
        }
    }
}

fn copy_bytes(bytes: &[u8]) -> (out: Vec<u8>)
    ensures
        out@ == bytes@,
{
    let mut out: Vec<u8> = Vec::new();
    push_bytes(&mut out, bytes);
    assert(out@ =~= bytes@);
    out
}

/// A position with twenty digits.
pub fn format_fixed_range(value: usize) -> (out: String)
    ensures
        out@ == range_text(value as nat),
{
    string_of(&padded_numeral(value as u64, 10, 20))
}

/// The names of the entries behind the metadata.
fn entry_names(docs: &Vec<SgmlDocument>) -> (names: Vec<String>)
    requires
        docs@.len() + 4 <= usize::MAX,
    ensures
        texts(names@) == tar_names(document_names(docs@)),
{
    let mut seen = StringHashSet::new();
    seen.insert("metadata.json".to_owned());
    let mut names: Vec<String> = Vec::new();
    let ghost all = document_names(docs@);
    assert(texts(names@) =~= tar_names(all.take(0)));
    assert(seen@ =~= texts(names@).to_set().insert("metadata.json"@));
    let mut i: usize = 0;
    while i < docs.len()
        invariant
            i <= docs@.len(),
            docs@.len() + 4 <= usize::MAX,
            all == document_names(docs@),
            texts(names@) == tar_names(all.take(i as int)),
            seen@ == texts(names@).to_set().insert("metadata.json"@),
        decreases docs@.len() - i,
    {
        let ghost earlier = texts(names@);
        proof {
            law_tar_names(all.take(i as int));
            earlier.unique_seq_to_set();
            assert(all.take(i + 1).drop_last() =~= all.take(i as int));
            assert(all.take(i + 1).last() == docs@[i as int].filename@);
        }
        let mut base = chars_of(sanitize_filename(&docs[i].filename, i + 1).as_str());
        push_chars(&mut base, &chars_of(".zst"));
        let name = unique_filename(string_of(&base).as_str(), &mut seen);
        let ghost taken = name@;
        names.push(name);
        proof {
            assert(texts(names@) =~= earlier.push(taken));
            assert(texts(names@).to_set() =~= earlier.to_set().insert(taken)) by {
                broadcast use vstd::seq_lib::group_seq_properties;

            }
            assert(seen@ =~= texts(names@).to_set().insert("metadata.json"@));
        }
        i += 1;
    }
    assert(all.take(i as int) =~= all);
    names
}

/// The documents as the metadata writer takes them, with the given ranges.
fn prepare_documents(
    docs: &Vec<SgmlDocument>,
    starts: &Vec<String>,
    ends: &Vec<String>,
) -> (prepared: Vec<PreparedDocument>)
    requires
        starts@.len() == docs@.len(),
        ends@.len() == docs@.len(),
    ensures
        entries(prepared@) == Seq::new(
            docs@.len(),
            |i: int| document_entry(docs@[i], starts@[i]@, ends@[i]@),
        ),
{
    let mut prepared: Vec<PreparedDocument> = Vec::new();
    let mut i: usize = 0;
    while i < docs.len()
        invariant
            i <= docs@.len(),
            starts@.len() == docs@.len(),
            ends@.len() == docs@.len(),
            prepared@.len() == i,
            forall|j: int|
                0 <= j < i ==> (#[trigger] prepared@[j]).entry() == document_entry(
                    docs@[j],
                    starts@[j]@,
                    ends@[j]@,
                ),
        decreases docs@.len() - i,
    {
        prepared.push(
            PreparedDocument {
                doc_type: copy_bytes(&docs[i].doc_type),
                sequence: copy_bytes(&docs[i].sequence),
                filename: copy_bytes(&docs[i].filename),
                description: copy_bytes(&docs[i].description),
                start_byte: starts[i].clone(),
                end_byte: ends[i].clone(),
            },
        );
        i += 1;
    }
    assert(entries(prepared@) =~= Seq::new(
        docs@.len(),
        |i: int| document_entry(docs@[i], starts@[i]@, ends@[i]@),
    ));
    prepared
}

fn placeholders(n: usize) -> (out: Vec<String>)
    ensures
        out@.len() == n,
        forall|i: int| 0 <= i < n ==> (#[trigger] out@[i])@ == range_placeholder(),
{
    let mut out: Vec<String> = Vec::new();
    let mut i: usize = 0;
    while i < n
        invariant
            i <= n,
            out@.len() == i,
            forall|j: int| 0 <= j < i ==> (#[trigger] out@[j])@ == range_placeholder(),
        decreases n - i,
    {
        out.push("99999999999999999999".to_owned());
        i += 1;
    }
    out
}

/// Where the contents begin and end, if the positions fit.
fn content_ranges(metadata_len: usize, contents: &Vec<Vec<u8>>) -> (ranges: Option<
    Vec<(usize, usize)>,
>)
    ensures
        match ranges {
            Some(r) => {
                &&& entry_position(
                    metadata_len as nat,
                    byte_seqs(contents@),
                    contents@.len(),
                ) <= usize::MAX
                &&& r@.len() == contents@.len()
                &&& forall|i: int|
                    0 <= i < contents@.len() ==> (#[trigger] r@[i]).0 == content_start(
                        metadata_len as nat,
                        byte_seqs(contents@),
                        i as nat,
                    ) && r@[i].1 == content_end(
                        metadata_len as nat,
                        byte_seqs(contents@),
                        i as nat,
                    )
            },
            None => entry_position(
                metadata_len as nat,
                byte_seqs(contents@),
                contents@.len(),
            ) > usize::MAX,
        },
{
    let ghost seqs = byte_seqs(contents@);
    let ghost len = metadata_len as nat;
    let ghost n = contents@.len();
    proof {
        lemma_positions_grow(len, seqs, 0, n);
    }
    if metadata_len > usize::MAX - 512 {
        return None;
    }
    let mut position: usize = match next_tar_entry_offset(512 + metadata_len) {
        Some(p) => p,
        None => {
            return None;
        },
    };
    let mut ranges: Vec<(usize, usize)> = Vec::new();
    let mut i: usize = 0;
    while i < contents.len()
        invariant
            i <= contents@.len() == n,
            seqs == byte_seqs(contents@),
            len == metadata_len,
            position == entry_position(len, seqs, i as nat),
            ranges@.len() == i,
            forall|j: int|
                0 <= j < i ==> (#[trigger] ranges@[j]).0 == content_start(len, seqs, j as nat)
                    && ranges@[j].1 == content_end(len, seqs, j as nat),
        decreases contents@.len() - i,
    {
        let size = contents[i].len();
        proof {
            assert(seqs[i as int] == contents@[i as int]@);
            lemma_positions_grow(len, seqs, i as nat, n);
            lemma_positions_grow(len, seqs, (i + 1) as nat, n);
        }
        if position > usize::MAX - 512 {
            return None;
        }
        let start: usize = position + 512;
        if size > usize::MAX - start {
            return None;
        }
        let end: usize = start + size;
        ranges.push((start, end));
        position = match next_tar_entry_offset(end) {
            Some(p) => p,
            None => {
                return None;
            },
        };
        i += 1;
    }
    Some(ranges)
}

fn range_texts(ranges: &Vec<(usize, usize)>) -> (out: (Vec<String>, Vec<String>))
    ensures
        out.0@.len() == ranges@.len(),
        out.1@.len() == ranges@.len(),
        forall|i: int|
            0 <= i < ranges@.len() ==> (#[trigger] out.0@[i])@ == range_text(ranges@[i].0 as nat),
        forall|i: int|
            0 <= i < ranges@.len() ==> (#[trigger] out.1@[i])@ == range_text(ranges@[i].1 as nat),
{
    let mut starts: Vec<String> = Vec::new();
    let mut ends: Vec<String> = Vec::new();
    let mut i: usize = 0;
    while i < ranges.len()
        invariant
            i <= ranges@.len(),
            starts@.len() == i,
            ends@.len() == i,
            forall|j: int|
                0 <= j < i ==> (#[trigger] starts@[j])@ == range_text(ranges@[j].0 as nat),
            forall|j: int| 0 <= j < i ==> (#[trigger] ends@[j])@ == range_text(ranges@[j].1 as nat),
        decreases ranges@.len() - i,
    {
        starts.push(format_fixed_range(ranges[i].0));
        ends.push(format_fixed_range(ranges[i].1));
        i += 1;
    }
    (starts, ends)
}

/// Appends the entries behind the metadata, or names the first that is too large.
fn append_documents(tar: &mut Vec<u8>, names: &Vec<String>, contents: &Vec<Vec<u8>>) -> (r: Result<
    (),
    String,
>)
    requires
        names@.len() == contents@.len(),
        forall|i: int| 0 <= i < names@.len() ==> byte_len((#[trigger] names@[i])@) <= 100,
    ensures
        match r {
            Ok(()) => {
                &&& first_oversized(texts(names@), byte_seqs(contents@), 0) is None
                &&& final(tar)@ == old(tar)@ + document_tar(
                    texts(names@),
                    byte_seqs(contents@),
                    contents@.len(),
                )
            },
            Err(path) => first_oversized(texts(names@), byte_seqs(contents@), 0) == Some(path@),
        },
{
    let ghost front = tar@;
    let ghost paths = texts(names@);
    let ghost seqs = byte_seqs(contents@);
    assert(tar@ =~= front + document_tar(paths, seqs, 0));
    let mut i: usize = 0;
    while i < contents.len()
        invariant
            i <= contents@.len() == names@.len(),
            paths == texts(names@),
            seqs == byte_seqs(contents@),
            forall|i: int| 0 <= i < names@.len() ==> byte_len((#[trigger] names@[i])@) <= 100,
            first_oversized(paths, seqs, 0) == first_oversized(paths, seqs, i as int),
            tar@ == front + document_tar(paths, seqs, i as nat),
        decreases contents@.len() - i,
    {
        assert(paths[i as int] == names@[i as int]@);
        assert(seqs[i as int] == contents@[i as int]@);
        match append_tar_entry(tar, names[i].as_str(), &contents[i]) {
            Ok(()) => {},
            Err(_) => {
                return Err(names[i].clone());
            },
        }
        assert(tar@ =~= front + document_tar(paths, seqs, (i + 1) as nat));
        i += 1;
    }
    Ok(())
}

fn list_ranges(docs: &Vec<SgmlDocument>, starts: &Vec<String>, ends: &Vec<String>) -> (out: Vec<
    DocumentByteRange,
>)
    requires
        starts@.len() == docs@.len(),
        ends@.len() == docs@.len(),
    ensures
        out@.len() == docs@.len(),
        forall|i: int|
            0 <= i < docs@.len() ==> {
                &&& (#[trigger] out@[i]).filename@ == utf8_lossy(docs@[i].filename@)
                &&& out@[i].start_byte@ == starts@[i]@
                &&& out@[i].end_byte@ == ends@[i]@
            },
{
    let mut out: Vec<DocumentByteRange> = Vec::new();
    let mut i: usize = 0;
    while i < docs.len()
        invariant
            i <= docs@.len(),
            starts@.len() == docs@.len(),
            ends@.len() == docs@.len(),
            out@.len() == i,
            forall|j: int|
                0 <= j < i ==> {
                    &&& (#[trigger] out@[j]).filename@ == utf8_lossy(docs@[j].filename@)
                    &&& out@[j].start_byte@ == starts@[j]@
                    &&& out@[j].end_byte@ == ends@[j]@
                },
        decreases docs@.len() - i,
    {
        out.push(
            DocumentByteRange {
                filename: lossy_string(&docs[i].filename),
                start_byte: starts[i].clone(),
                end_byte: ends[i].clone(),
            },
        );
        i += 1;
    }
    out
}

spec fn lists_range(
    listed: FilingDocument,
    docs: Seq<SgmlDocument>,
    ranges: Seq<(usize, usize)>,
    i: int,
) -> bool {
    &&& listed.sequence == sequence_of(docs[i].sequence@, i as nat)
    &&& listed.document_type@ == utf8_lossy(docs[i].doc_type@)
    &&& listed.filename@ == utf8_lossy(docs[i].filename@)
    &&& listed.description@ == utf8_lossy(docs[i].description@)
    &&& listed.tar_start_byte == ranges[i].0
    &&& listed.tar_end_byte == ranges[i].1
}

fn list_documents(docs: &Vec<SgmlDocument>, ranges: &Vec<(usize, usize)>) -> (out: Vec<
    FilingDocument,
>)
    requires
        ranges@.len() == docs@.len(),
    ensures
        out@.len() == docs@.len(),
        forall|i: int| 0 <= i < docs@.len() ==> lists_range(#[trigger] out@[i], docs@, ranges@, i),
{
    let mut out: Vec<FilingDocument> = Vec::new();
    let mut i: usize = 0;
    while i < docs.len()
        invariant
            i <= docs@.len(),
            ranges@.len() == docs@.len(),
            out@.len() == i,
            forall|j: int| 0 <= j < i ==> lists_range(#[trigger] out@[j], docs@, ranges@, j),
        decreases docs@.len() - i,
    {
        let sequence: u16 = match parse_sequence(&docs[i].sequence) {
            Some(n) => n,
            None => ((i + 1) % 65536) as u16,
        };
        out.push(
            FilingDocument {
                sequence,
                document_type: lossy_string(&docs[i].doc_type),
                filename: lossy_string(&docs[i].filename),
                description: lossy_string(&docs[i].description),
                tar_start_byte: ranges[i].0 as u64,
                tar_end_byte: ranges[i].1 as u64,
            },
        );
        i += 1;
    }
    out
}

fn any_looks_like_xbrl(documents: &Vec<FilingDocument>) -> (r: bool)
    ensures
        r == exists|i: int|
            0 <= i < documents@.len() && looks_like_xbrl(
                (#[trigger] documents@[i]).document_type@,
                documents@[i].filename@,
            ),
{
    let mut i: usize = 0;
    while i < documents.len()
        invariant
            i <= documents@.len(),
            forall|j: int|
                0 <= j < i ==> !looks_like_xbrl(
                    (#[trigger] documents@[j]).document_type@,
                    documents@[j].filename@,
                ),
        decreases documents@.len() - i,
    {
        if document_looks_like_xbrl(&documents[i]) {
            return true;
        }
        i += 1;
    }
    false
}

/// Writes an archive with the given metadata and the given documents.
fn write_archive(metadata: &Vec<u8>, names: &Vec<String>, contents: &Vec<Vec<u8>>) -> (r: Result<
    Vec<u8>,
    ArchiveError,
>)
    requires
        names@.len() == contents@.len(),
        forall|i: int| 0 <= i < names@.len() ==> byte_len((#[trigger] names@[i])@) <= 100,
    ensures
        if metadata@.len() > MAX_ENTRY_LEN {
            r matches Err(ArchiveError::EntryTooLarge(p)) && p@ == "metadata.json"@
        } else {
            match first_oversized(texts(names@), byte_seqs(contents@), 0) {
                Some(path) => r matches Err(ArchiveError::EntryTooLarge(p)) && p@ == path,
                None => r matches Ok(bytes) && bytes@ == tar_bytes(
                    metadata@,
                    texts(names@),
                    byte_seqs(contents@),
                ),
            }
        },
{
    assert(encode_utf8("metadata.json"@).len() <= 100) by {
        reveal_strlit("metadata.json");
        is_ascii_chars_encode_utf8("metadata.json"@);
    }
    let mut bytes: Vec<u8> = Vec::new();
    match append_tar_entry(&mut bytes, "metadata.json", metadata) {
        Ok(()) => {},
        Err(_) => {
            return Err(ArchiveError::EntryTooLarge("metadata.json".to_owned()));
        },
    }
    match append_documents(&mut bytes, names, contents) {
        Ok(()) => {},
        Err(path) => {
            return Err(ArchiveError::EntryTooLarge(path));
        },
    }
    finish_tar(&mut bytes);
    reveal(tar_bytes);
    assert(bytes@ =~= tar_bytes(metadata@, texts(names@), byte_seqs(contents@)));
    Ok(bytes)
}

/// The documents of an archive as its index lists them, and whether one looks like XBRL.
fn index_documents(docs: &Vec<SgmlDocument>, ranges: &Vec<(usize, usize)>) -> (r: (
    Vec<FilingDocument>,
    bool,
))
    requires
        ranges@.len() == docs@.len(),
    ensures
        r.0@.len() == docs@.len(),
        forall|i: int| 0 <= i < docs@.len() ==> lists_range(#[trigger] r.0@[i], docs@, ranges@, i),
        r.1 == exists|i: int|
            0 <= i < docs@.len() && looks_like_xbrl(
                utf8_lossy((#[trigger] docs@[i]).doc_type@),
                utf8_lossy(docs@[i].filename@),
            ),
{
    let documents = list_documents(docs, ranges);
    let contains_xbrl = any_looks_like_xbrl(&documents);
    proof {
        if contains_xbrl {
            let i = choose|i: int|
                0 <= i < documents@.len() && looks_like_xbrl(
                    (#[trigger] documents@[i]).document_type@,
                    documents@[i].filename@,
                );
            assert(lists_range(documents@[i], docs@, ranges@, i));
            assert(looks_like_xbrl(utf8_lossy(docs@[i].doc_type@), utf8_lossy(docs@[i].filename@)));
        } else {
            assert forall|i: int| 0 <= i < docs@.len() implies !looks_like_xbrl(
                utf8_lossy((#[trigger] docs@[i]).doc_type@),
                utf8_lossy(docs@[i].filename@),
            ) by {
                assert(lists_range(documents@[i], docs@, ranges@, i));
                assert(!looks_like_xbrl(documents@[i].document_type@, documents@[i].filename@));
            }
        }
    }
    (documents, contains_xbrl)
}

/// Puts an archive together from a filing and the compressed contents of its documents.
pub fn assemble_archive(
    parsed: &ParsedSgml,
    submission: &ParsedSubmissionMetadata,
    contents: &Vec<Vec<u8>>,
) -> (r: Result<FilingTarArchive, ArchiveError>)
    requires
        contents@.len() == parsed.documents@.len(),
    ensures
        archive_outcome(r, *parsed, submission.events@, byte_seqs(contents@)),
{
    let docs = &parsed.documents;
    let events = &submission.events;
    let ghost seqs = byte_seqs(contents@);
    let ghost len = metadata_len(events@, docs@);
    let n = docs.len();
    if n > usize::MAX / 512 {
        proof {
            lemma_positions_grow(len, seqs, 0, n as nat);
        }
        return Err(ArchiveError::TooLarge);
    }
    let names = entry_names(docs);
    let blanks = placeholders(n);
    let unplaced = prepare_documents(docs, &blanks, &blanks);
    assert(entries(unplaced@) =~= unplaced_entries(docs@));
    let placeholder_len = metadata_json(events, &unplaced).len();
    let ranges = match content_ranges(placeholder_len, contents) {
        Some(ranges) => ranges,
        None => {
            return Err(ArchiveError::TooLarge);
        },
    };
    let (starts, ends) = range_texts(&ranges);
    let placed = prepare_documents(docs, &starts, &ends);
    assert(entries(placed@) =~= placed_entries(docs@, len, seqs));
    let metadata = metadata_json(events, &placed);
    proof {
        law_positions_keep_metadata_len(events@, docs@, seqs);
        law_tar_names(document_names(docs@));
        assert forall|i: int| 0 <= i < names@.len() implies byte_len((#[trigger] names@[i])@)
            <= 100 by {
            assert(texts(names@)[i] == names@[i]@);
        }
    }
    let bytes = match write_archive(&metadata, &names, contents) {
        Ok(bytes) => bytes,
        Err(e) => {
            return Err(e);
        },
    };
    let document_ranges = list_ranges(docs, &starts, &ends);
    let (documents, contains_xbrl) = index_documents(docs, &ranges);
    Ok(
        FilingTarArchive {
            bytes,
            document_count: parsed.doc_count,
            uuencoded_count: parsed.uuencoded_count,
            document_ranges,
            submission_type: metadata_value(events, "type"),
            filing_date: metadata_date(events, "filing-date"),
            report_date: metadata_date(events, "period"),
            contains_xbrl,
            ciks: collect_ciks(events),
            documents,
        },
    )
}

/// The contents of the documents as the compressor writes them.
pub open spec fn compressed_contents(docs: Seq<SgmlDocument>, level: i32) -> Seq<Seq<u8>> {
    docs.map_values(|d: SgmlDocument| zstd_frame(d.content@, level))
}

/// Whether the bytes of document `i` in the archive, decompressed, are its content.
pub open spec fn gives_back(archive: FilingTarArchive, docs: Seq<SgmlDocument>, i: int) -> bool {
    let start = archive.documents@[i].tar_start_byte as int;
    let end = archive.documents@[i].tar_end_byte as int;
    &&& 0 <= start <= end <= archive.bytes@.len()
    &&& zstd_content(archive.bytes@.subrange(start, end)) == docs[i].content@
}

/// Builds the archive of a filing, with each document compressed. Unless the compressor fails,
/// what comes of it is what comes of the frames that it writes. Every document can be read back
/// from the range that is listed for it.
pub fn build_tar_from_sgml(
    parsed: &ParsedSgml,
    submission: &ParsedSubmissionMetadata,
    zstd_level: i32,
) -> (r: Result<FilingTarArchive, ArchiveError>)
    ensures
        r matches Err(ArchiveError::Compression(_)) || archive_outcome(
            r,
            *parsed,
            submission.events@,
            compressed_contents(parsed.documents@, zstd_level),
        ),
        parsed.documents@.len() == 0 ==> !(r matches Err(ArchiveError::Compression(_))),
        r matches Ok(archive) ==> forall|i: int|
            0 <= i < parsed.documents@.len() ==> #[trigger] gives_back(
                archive,
                parsed.documents@,
                i,
            ),
{
    let docs = &parsed.documents;
    let mut contents: Vec<Vec<u8>> = Vec::new();
    let mut i: usize = 0;
    while i < docs.len()
        invariant
            i <= docs@.len(),
            docs == parsed.documents,
            contents@.len() == i,
            forall|j: int|
                0 <= j < i ==> (#[trigger] contents@[j])@ == zstd_frame(
                    docs@[j].content@,
                    zstd_level,
                ) && zstd_content(contents@[j]@) == docs@[j].content@,
        decreases docs@.len() - i,
    {
        match compress_bytes(CompressionType::Zstd, zstd_level, &docs[i].content) {
            Ok(content) => contents.push(content),
            Err(e) => {
                return Err(ArchiveError::Compression(e));
            },
        }
        i += 1;
    }
    let ghost frames = compressed_contents(docs@, zstd_level);
    assert(byte_seqs(contents@) =~= frames);
    let r = assemble_archive(parsed, submission, &contents);
    proof {
        if r is Ok {
            let archive = r->Ok_0;
            let events = submission.events@;
            assert forall|i: int| 0 <= i < docs@.len() implies #[trigger] gives_back(
                archive,
                docs@,
                i,
            ) by {
                law_ranges_hold_contents(events, docs@, frames, i);
                assert(lists_document(
                    archive.documents@[i],
                    docs@,
                    metadata_len(events, docs@),
                    frames,
                    i,
                ));
                assert(frames[i] == contents@[i]@);
            }
        }
    }
    r
}

} // verus!
