//! The feed of current filings.
use vstd::prelude::*;
use vstd::slice::slice_subrange;
use vstd::utf8::{encode_scalar, encode_utf8};

use crate::common::{submission_models, Submission, SubmissionModel, SubmissionSource, Timestamp};
use crate::encoding::{lossy_string, utf8_lossy};
use crate::numeral::{parse_unsigned, read_u64};
use crate::text::{
    chars_of, copy_chars, find, find_in, has_prefix, head, head_of, last_of, opt_text, past_last,
    pieces, push_chars, same_bytes, same_str, split, split_at_char, split_words, string_of,
    to_upper, trim, trim_class, trim_space, trimmed, upper, words, CharClass,
};
use crate::xml::{
    attribute_result, document_events, event_models, read_events, AttributeModel, EventModel,
    TagModel, XmlEvent, XmlTag,
};

verus! {

/// An entry of the feed.
#[derive(Debug)]
pub struct RssEntry {
    /// The accession number as the feed writes it.
    pub accession: Option<String>,
    pub cik: Option<u64>,
    pub submission_type: String,
    pub filing_date: String,
    /// The summary, which states the size among other things.
    pub summary: Option<String>,
}

/// Why a feed cannot be read.
#[derive(Debug, PartialEq, Eq, Structural)]
pub enum RssError {
    /// What stands behind `Filed:` is too short for a date, or is cut inside a character.
    MalformedDate,
}

// ---------------------------------------------------------------------------
// Model
// ---------------------------------------------------------------------------

#[verifier::ext_equal]
pub struct EntryModel {
    pub accession: Option<Seq<char>>,
    pub cik: Option<u64>,
    pub submission_type: Seq<char>,
    pub filing_date: Seq<char>,
    pub summary: Option<Seq<char>>,
}

impl View for RssEntry {
    type V = EntryModel;

    open spec fn view(&self) -> EntryModel {
        EntryModel {
            accession: opt_text(self.accession),
            cik: self.cik,
            submission_type: self.submission_type@,
            filing_date: self.filing_date@,
            summary: opt_text(self.summary),
        }
    }
}

pub open spec fn entry_models(s: Seq<RssEntry>) -> Seq<EntryModel> {
    s.map_values(|x: RssEntry| x@)
}

pub open spec fn blank_entry() -> EntryModel {
    EntryModel {
        accession: None,
        cik: None,
        submission_type: Seq::empty(),
        filing_date: Seq::empty(),
        summary: None,
    }
}

/// Where the reader of a feed stands.
#[verifier::ext_equal]
pub struct FeedState {
    pub entry: EntryModel,
    pub in_summary: bool,
    pub in_title: bool,
    pub summary_text: Seq<char>,
}

pub open spec fn feed_start() -> FeedState {
    FeedState {
        entry: blank_entry(),
        in_summary: false,
        in_title: false,
        summary_text: Seq::empty(),
    }
}

/// The raw value of the first attribute `term`, from the `i`-th on.
pub open spec fn term_from(attributes: Seq<Result<AttributeModel, Seq<char>>>, i: int) -> Option<
    Seq<u8>,
>
    decreases attributes.len() - i,
{
    if i >= attributes.len() {
        None
    } else {
        match attributes[i] {
            Ok(a) => if a.key == encode_utf8("term"@) {
                Some(a.raw)
            } else {
                term_from(attributes, i + 1)
            },
            Err(_) => term_from(attributes, i + 1),
        }
    }
}

/// The state behind a start tag or an empty element.
pub open spec fn tag_seen(state: FeedState, tag: TagModel) -> FeedState {
    if tag.name == encode_utf8("category"@) {
        match term_from(tag.attributes, 0) {
            Some(raw) => FeedState {
                entry: EntryModel { submission_type: utf8_lossy(raw), ..state.entry },
                ..state
            },
            None => state,
        }
    } else if tag.name == encode_utf8("summary"@) {
        FeedState { in_summary: true, summary_text: Seq::empty(), ..state }
    } else if tag.name == encode_utf8("title"@) {
        FeedState { in_title: true, ..state }
    } else {
        state
    }
}

/// The number in the last but one of the parentheses of a title, where it is a number. Nothing
/// is said where the title has no parentheses.
pub open spec fn title_cik(text: Seq<char>, cik: Option<u64>) -> Option<u64> {
    let parts = split(text, '(');
    if parts.len() >= 2 {
        match parse_unsigned(head(parts[parts.len() - 2], ')'), u64::MAX as nat) {
            Some(n) => Some(n as u64),
            None => None,
        }
    } else {
        cik
    }
}

/// What stands behind the last equals sign.
pub open spec fn after_equals(text: Seq<char>) -> Seq<char> {
    text.skip(last_of(text, '=') + 1)
}

/// The state behind a text.
pub open spec fn text_seen(state: FeedState, text: Seq<char>) -> FeedState {
    if state.in_summary {
        FeedState { summary_text: state.summary_text + text, ..state }
    } else if state.in_title {
        FeedState {
            entry: EntryModel { cik: title_cik(text, state.entry.cik), ..state.entry },
            ..state
        }
    } else if "urn:tag:sec.gov"@.is_prefix_of(text) {
        FeedState {
            entry: EntryModel { accession: Some(after_equals(text)), ..state.entry },
            ..state
        }
    } else {
        state
    }
}

/// How many bytes a character takes in UTF-8.
pub open spec fn char_width(c: char) -> nat {
    if c as u32 <= 0x7f {
        1
    } else if c as u32 <= 0x7ff {
        2
    } else if c as u32 <= 0xffff {
        3
    } else {
        4
    }
}

/// The characters that fill just `n` bytes at the front of a text.
pub open spec fn byte_prefix(s: Seq<char>, n: int) -> Option<Seq<char>>
    decreases s.len(),
{
    if n == 0 {
        Some(Seq::empty())
    } else if s.len() == 0 || char_width(s[0]) > n {
        None
    } else {
        match byte_prefix(s.drop_first(), n - char_width(s[0])) {
            Some(p) => Some(seq![s[0]] + p),
            None => None,
        }
    }
}

/// The date that a summary states: nothing where it states none, and an error where what it
/// states is no text of ten bytes.
pub open spec fn summary_date(summary: Seq<char>) -> Result<Option<Seq<char>>, RssError> {
    match find(summary, "Filed:</b>"@) {
        None => Ok(None),
        Some(n) => match byte_prefix(trim(summary.skip(n as int + "Filed:</b>"@.len())), 10) {
            Some(date) => Ok(Some(date)),
            None => Err(RssError::MalformedDate),
        },
    }
}

pub proof fn lemma_char_width(c: char)
    ensures
        encode_scalar(c as u32).len() == char_width(c),
{
}

proof fn lemma_byte_prefix(s: Seq<char>, n: int)
    requires
        n >= 0,
    ensures
        byte_prefix(s, n) matches Some(p) ==> p.is_prefix_of(s) && encode_utf8(p).len() == n,
    decreases s.len(),
{
    if n == 0 {
        let none = Seq::<char>::empty();
        assert(none =~= s.subrange(0, 0));
        assert(encode_utf8(none).len() == 0);
    } else if s.len() > 0 && char_width(s[0]) <= n {
        let rest = s.drop_first();
        lemma_byte_prefix(rest, n - char_width(s[0]));
        if let Some(q) = byte_prefix(rest, n - char_width(s[0])) {
            let p = seq![s[0]] + q;
            assert(p.drop_first() =~= q);
            assert(encode_utf8(p) == encode_scalar(p[0] as u32) + encode_utf8(q));
            lemma_char_width(s[0]);
            assert(p.is_prefix_of(s)) by {
                assert forall|i: int| 0 <= i < p.len() implies p[i] == s[i] by {
                    if i > 0 {
                        assert(p[i] == q[i - 1]);
                        assert(q[i - 1] == rest.subrange(0, q.len() as int)[i - 1]);
                    }
                }
                assert(p =~= s.subrange(0, p.len() as int));
            }
        }
    }
}

/// A date that a summary states takes ten bytes, and stands at the front of what follows its
/// label.
pub proof fn law_dates_take_ten_bytes(summary: Seq<char>)
    ensures
        summary_date(summary) matches Ok(Some(date)) ==> {
            &&& encode_utf8(date).len() == 10
            &&& date.is_prefix_of(
                trim(summary.skip(find(summary, "Filed:</b>"@)->0 as int + "Filed:</b>"@.len())),
            )
        },
{
    if let Some(n) = find(summary, "Filed:</b>"@) {
        lemma_byte_prefix(trim(summary.skip(n as int + "Filed:</b>"@.len())), 10);
    }
}

/// The state behind an end tag, and the entries with the one that it ends.
pub open spec fn end_seen(state: FeedState, name: Seq<u8>, entries: Seq<EntryModel>) -> Result<
    (FeedState, Seq<EntryModel>),
    RssError,
> {
    if name == encode_utf8("title"@) {
        Ok((FeedState { in_title: false, ..state }, entries))
    } else if name == encode_utf8("summary"@) {
        match summary_date(state.summary_text) {
            Err(e) => Err(e),
            Ok(date) => Ok(
                (
                    FeedState {
                        in_summary: false,
                        entry: EntryModel {
                            filing_date: match date {
                                Some(d) => d,
                                None => state.entry.filing_date,
                            },
                            summary: Some(state.summary_text),
                            ..state.entry
                        },
                        ..state
                    },
                    entries,
                ),
            ),
        }
    } else if name == encode_utf8("entry"@) {
        Ok((FeedState { entry: blank_entry(), ..state }, entries.push(state.entry)))
    } else {
        Ok((state, entries))
    }
}

/// The entries that the events from the `i`-th on add. A malformed feed counts up to its error.
pub open spec fn entries_from(
    events: Seq<EventModel>,
    i: int,
    state: FeedState,
    entries: Seq<EntryModel>,
) -> Result<Seq<EntryModel>, RssError>
    decreases events.len() - i,
{
    if i >= events.len() {
        Ok(entries)
    } else {
        match events[i] {
            EventModel::Eof => Ok(entries),
            EventModel::Failed(_) => Ok(entries),
            EventModel::Start(t) => entries_from(events, i + 1, tag_seen(state, t), entries),
            EventModel::Empty(t) => entries_from(events, i + 1, tag_seen(state, t), entries),
            EventModel::Text(r) => entries_from(
                events,
                i + 1,
                text_seen(
                    state,
                    match r {
                        Ok(s) => s,
                        Err(_) => Seq::empty(),
                    },
                ),
                entries,
            ),
            EventModel::End(n) => match end_seen(state, n, entries) {
                Err(e) => Err(e),
                Ok((next, more)) => entries_from(events, i + 1, next, more),
            },
            _ => entries_from(events, i + 1, state, entries),
        }
    }
}

/// The entries of a feed.
pub open spec fn feed_entries(events: Seq<EventModel>) -> Result<Seq<EntryModel>, RssError> {
    entries_from(events, 0, feed_start(), Seq::empty())
}

// ---------------------------------------------------------------------------
// Reading
// ---------------------------------------------------------------------------

struct FeedReader {
    accession: Option<String>,
    cik: Option<u64>,
    submission_type: String,
    filing_date: String,
    summary: Option<String>,
    in_summary: bool,
    in_title: bool,
    summary_text: Vec<char>,
}

impl View for FeedReader {
    type V = FeedState;

    closed spec fn view(&self) -> FeedState {
        FeedState {
            entry: EntryModel {
                accession: opt_text(self.accession),
                cik: self.cik,
                submission_type: self.submission_type@,
                filing_date: self.filing_date@,
                summary: opt_text(self.summary),
            },
            in_summary: self.in_summary,
            in_title: self.in_title,
            summary_text: self.summary_text@,
        }
    }
}

fn width_of(c: char) -> (n: usize)
    ensures
        n == char_width(c),
        1 <= n <= 4,
{
    let code = c as u32;
    if code <= 0x7f {
        1
    } else if code <= 0x7ff {
        2
    } else if code <= 0xffff {
        3
    } else {
        4
    }
}

/// The characters that fill just `n` bytes at the front of a text.
pub fn take_bytes(s: &[char], n: usize) -> (out: Option<Vec<char>>)
    ensures
        match out {
            Some(p) => byte_prefix(s@, n as int) == Some(p@),
            None => byte_prefix(s@, n as int) is None,
        },
{
    let mut left: usize = n;
    let mut i: usize = 0;
    let ghost whole = byte_prefix(s@, n as int);
    assert(s@.skip(0) =~= s@);
    proof {
        if let Some(p) = whole {
            assert(s@.take(0) + p =~= p);
        }
    }
    while left > 0
        invariant
            i <= s@.len(),
            left <= n,
            whole == byte_prefix(s@, n as int),
            match byte_prefix(s@.skip(i as int), left as int) {
                Some(p) => whole == Some(s@.take(i as int) + p),
                None => whole is None,
            },
        decreases left,
    {
        if i >= s.len() {
            return None;
        }
        let ghost rest = s@.skip(i as int);
        assert(rest[0] == s@[i as int]);
        let w = width_of(s[i]);
        if w > left {
            return None;
        }
        proof {
            assert(rest.drop_first() =~= s@.skip(i + 1));
            if let Some(p) = byte_prefix(s@.skip(i + 1), left - w) {
                assert(s@.take(i as int) + (seq![rest[0]] + p) =~= s@.take(i + 1) + p);
            }
        }
        left = left - w;
        i += 1;
    }
    let out = copy_chars(slice_subrange(s, 0, i));
    assert(out@ =~= s@.take(i as int) + Seq::<char>::empty());
    Some(out)
}

fn find_term(tag: &XmlTag) -> (out: Option<&Vec<u8>>)
    ensures
        match out {
            Some(raw) => term_from(tag@.attributes, 0) == Some(raw@),
            None => term_from(tag@.attributes, 0) is None,
        },
{
    let key = "term".as_bytes();
    let mut i: usize = 0;
    while i < tag.attributes.len()
        invariant
            i <= tag.attributes@.len(),
            tag@.attributes.len() == tag.attributes@.len(),
            key@ == encode_utf8("term"@),
            term_from(tag@.attributes, 0) == term_from(tag@.attributes, i as int),
        decreases tag.attributes@.len() - i,
    {
        assert(tag@.attributes[i as int] == attribute_result(tag.attributes@[i as int]));
        match &tag.attributes[i] {
            Ok(a) => if same_bytes(&a.key, key) {
                return Some(&a.raw);
            },
            Err(_) => {},
        }
        i += 1;
    }
    None
}

/// The number in the last but one of the parentheses of a title.
pub fn cik_from_title(text: &[char], cik: Option<u64>) -> (out: Option<u64>)
    ensures
        out == title_cik(text@, cik),
{
    let parts = split_at_char(text, '(');
    assert(pieces(parts@).len() == parts@.len());
    if parts.len() >= 2 {
        let part = &parts[parts.len() - 2];
        assert(pieces(parts@)[parts@.len() - 2] == part@);
        read_u64(head_of(part, ')'))
    } else {
        cik
    }
}

/// The date that a summary states.
pub fn filing_date_of(summary: &[char]) -> (r: Result<Option<String>, RssError>)
    ensures
        match r {
            Ok(date) => summary_date(summary@) == Ok::<Option<Seq<char>>, RssError>(opt_text(date)),
            Err(e) => summary_date(summary@) == Err::<Option<Seq<char>>, RssError>(e),
        },
{
    let marker = chars_of("Filed:</b>");
    match find_in(summary, &marker) {
        None => Ok(None),
        Some(n) => {
            let end = summary.len();
            let rest = slice_subrange(summary, n + marker.len(), end);
            assert(rest@ =~= summary@.skip(n as int + marker@.len()));
            match take_bytes(trim_space(rest), 10) {
                Some(date) => Ok(Some(string_of(&date))),
                None => Err(RssError::MalformedDate),
            }
        },
    }
}

fn empty_string() -> (s: String)
    ensures
        s@ == Seq::<char>::empty(),
{
    let s = String::new();
    assert(s@ =~= Seq::<char>::empty());
    s
}

impl FeedReader {
    fn new() -> (reader: Self)
        ensures
            reader@ == feed_start(),
    {
        let reader = FeedReader {
            accession: None,
            cik: None,
            submission_type: empty_string(),
            filing_date: empty_string(),
            summary: None,
            in_summary: false,
            in_title: false,
            summary_text: Vec::new(),
        };
        assert(reader@ =~= feed_start());
        reader
    }

    fn see_tag(&mut self, tag: &XmlTag)
        ensures
            final(self)@ == tag_seen(old(self)@, tag@),
    {
        if same_bytes(&tag.name, "category".as_bytes()) {
            match find_term(tag) {
                Some(raw) => {
                    self.submission_type = lossy_string(raw);
                },
                None => {},
            }
        } else if same_bytes(&tag.name, "summary".as_bytes()) {
            self.in_summary = true;
            self.summary_text = Vec::new();
            assert(self.summary_text@ =~= Seq::<char>::empty());
        } else if same_bytes(&tag.name, "title".as_bytes()) {
            self.in_title = true;
        }
    }

    fn see_text(&mut self, text: &[char])
        ensures
            final(self)@ == text_seen(old(self)@, text@),
    {
        if self.in_summary {
            push_chars(&mut self.summary_text, text);
        } else if self.in_title {
            self.cik = cik_from_title(text, self.cik);
        } else if has_prefix(text, &chars_of("urn:tag:sec.gov")) {
            let start = past_last(text, '=');
            let rest = slice_subrange(text, start, text.len());
            assert(rest@ =~= after_equals(text@));
            self.accession = Some(string_of(rest));
        }
    }

    fn see_end(&mut self, name: &[u8], entries: &mut Vec<RssEntry>) -> (r: Result<(), RssError>)
        ensures
            match r {
                Ok(()) => end_seen(old(self)@, name@, entry_models(old(entries)@)) == Ok::<
                    (FeedState, Seq<EntryModel>),
                    RssError,
                >((final(self)@, entry_models(final(entries)@))),
                Err(e) => end_seen(old(self)@, name@, entry_models(old(entries)@)) == Err::<
                    (FeedState, Seq<EntryModel>),
                    RssError,
                >(e),
            },
    {
        if same_bytes(name, "title".as_bytes()) {
            self.in_title = false;
        } else if same_bytes(name, "summary".as_bytes()) {
            self.in_summary = false;
            match filing_date_of(&self.summary_text) {
                Ok(Some(date)) => {
                    self.filing_date = date;
                },
                Ok(None) => {},
                Err(e) => {
                    return Err(e);
                },
            }
            self.summary = Some(string_of(&self.summary_text));
        } else if same_bytes(name, "entry".as_bytes()) {
            let ghost earlier = entries@;
            let ghost made = self@.entry;
            let mut accession: Option<String> = None;
            let mut submission_type = empty_string();
            let mut filing_date = empty_string();
            let mut summary: Option<String> = None;
            std::mem::swap(&mut accession, &mut self.accession);
            std::mem::swap(&mut submission_type, &mut self.submission_type);
            std::mem::swap(&mut filing_date, &mut self.filing_date);
            std::mem::swap(&mut summary, &mut self.summary);
            let cik = self.cik;
            self.cik = None;
            entries.push(RssEntry { accession, cik, submission_type, filing_date, summary });
            assert(entry_models(entries@) =~= entry_models(earlier).push(made));
            assert(self@.entry =~= blank_entry());
        }
        Ok(())
    }
}

/// The entries that the given events state.
pub fn entries_of_events(events: &[XmlEvent]) -> (r: Result<Vec<RssEntry>, RssError>)
    ensures
        match r {
            Ok(entries) => feed_entries(event_models(events@)) == Ok::<Seq<EntryModel>, RssError>(
                entry_models(entries@),
            ),
            Err(e) => feed_entries(event_models(events@)) == Err::<Seq<EntryModel>, RssError>(e),
        },
{
    let ghost models = event_models(events@);
    let ghost whole = feed_entries(models);
    let mut reader = FeedReader::new();
    let mut entries: Vec<RssEntry> = Vec::new();
    assert(entry_models(entries@) =~= Seq::empty());
    let mut i: usize = 0;
    while i < events.len()
        invariant
            i <= events@.len(),
            models == event_models(events@),
            whole == feed_entries(models),
            whole == entries_from(models, i as int, reader@, entry_models(entries@)),
        decreases events@.len() - i,
    {
        assert(models[i as int] == events@[i as int]@);
        match &events[i] {
            XmlEvent::Eof => {
                return Ok(entries);
            },
            XmlEvent::Failed(_) => {
                return Ok(entries);
            },
            XmlEvent::Start(tag) => reader.see_tag(tag),
            XmlEvent::Empty(tag) => reader.see_tag(tag),
            XmlEvent::Text(text) => {
                let chars = match text {
                    Ok(s) => chars_of(s.as_str()),
                    Err(_) => {
                        let none: Vec<char> = Vec::new();
                        assert(none@ =~= Seq::<char>::empty());
                        none
                    },
                };
                reader.see_text(&chars);
            },
            XmlEvent::End(name) => match reader.see_end(name, &mut entries) {
                Ok(()) => {},
                Err(e) => {
                    return Err(e);
                },
            },
            _ => {},
        }
        i += 1;
    }
    Ok(entries)
}

/// The entries of a feed.
pub fn parse_rss_entries(xml: &str) -> (r: Result<Vec<RssEntry>, RssError>)
    ensures
        match r {
            Ok(entries) => feed_entries(document_events(encode_utf8(xml@), true)) == Ok::<
                Seq<EntryModel>,
                RssError,
            >(entry_models(entries@)),
            Err(e) => feed_entries(document_events(encode_utf8(xml@), true)) == Err::<
                Seq<EntryModel>,
                RssError,
            >(e),
        },
{
    entries_of_events(&read_events(xml.as_bytes(), true))
}

// ---------------------------------------------------------------------------
// Sizes
// ---------------------------------------------------------------------------

/// How many bytes the given unit stands for.
pub open spec fn unit_bytes(unit: Seq<char>) -> Option<u64> {
    if unit == "B"@ || unit == "BYTE"@ || unit == "BYTES"@ {
        Some(1)
    } else if unit == "KB"@ || unit == "K"@ {
        Some(1024)
    } else if unit == "MB"@ || unit == "M"@ {
        Some(1048576)
    } else if unit == "GB"@ || unit == "G"@ {
        Some(1073741824)
    } else {
        None
    }
}

/// The number that a summary states as the size, and the bytes in its unit; without a unit, the
/// number counts bytes.
pub open spec fn stated_size(summary: Seq<char>) -> Option<(Seq<char>, u64)> {
    match find(summary, "Size:</b>"@) {
        None => None,
        Some(n) => {
            let w = words(summary.skip(n as int + "Size:</b>"@.len()));
            if w.len() == 0 {
                None
            } else {
                let unit = if w.len() == 1 {
                    "B"@
                } else {
                    upper(trimmed(w[1], CharClass::NonAlpha))
                };
                match unit_bytes(unit) {
                    Some(b) => Some((w[0], b)),
                    None => None,
                }
            }
        },
    }
}

fn bytes_per_unit(unit: &str) -> (out: Option<u64>)
    ensures
        out == unit_bytes(unit@),
{
    if same_str(unit, "B") || same_str(unit, "BYTE") || same_str(unit, "BYTES") {
        Some(1)
    } else if same_str(unit, "KB") || same_str(unit, "K") {
        Some(1024)
    } else if same_str(unit, "MB") || same_str(unit, "M") {
        Some(1048576)
    } else if same_str(unit, "GB") || same_str(unit, "G") {
        Some(1073741824)
    } else {
        None
    }
}

/// The number that a summary states as the size, and the bytes in its unit.
pub fn summary_size_parts(summary: &str) -> (out: Option<(String, u64)>)
    ensures
        match out {
            Some((number, bytes)) => stated_size(summary@) == Some((number@, bytes)),
            None => stated_size(summary@) is None,
        },
{
    let chars = chars_of(summary);
    let marker = chars_of("Size:</b>");
    match find_in(&chars, &marker) {
        None => None,
        Some(n) => {
            let end = chars.len();
            let rest = slice_subrange(&chars, n + marker.len(), end);
            assert(rest@ =~= summary@.skip(n as int + marker@.len()));
            let parts = split_words(rest);
            assert(pieces(parts@).len() == parts@.len());
            if parts.len() == 0 {
                return None;
            }
            assert(pieces(parts@)[0] == parts@[0]@);
            let unit = if parts.len() == 1 {
                "B".to_owned()
            } else {
                assert(pieces(parts@)[1] == parts@[1]@);
                string_of(&to_upper(trim_class(&parts[1], CharClass::NonAlpha)))
            };
            match bytes_per_unit(unit.as_str()) {
                Some(b) => Some((string_of(&parts[0]), b)),
                None => None,
            }
        },
    }
}

/// The first bytes of a document as text.
pub fn xml_preview(xml: &str) -> (out: String)
    ensures
        out@ == utf8_lossy(
            if encode_utf8(xml@).len() <= 1000 {
                encode_utf8(xml@)
            } else {
                encode_utf8(xml@).take(1000)
            },
        ),
{
    let bytes = xml.as_bytes();
    if bytes.len() <= 1000 {
        lossy_string(bytes)
    } else {
        let front = slice_subrange(bytes, 0, 1000);
        assert(front@ =~= bytes@.take(1000));
        lossy_string(front)
    }
}

// ---------------------------------------------------------------------------
// Submissions
// ---------------------------------------------------------------------------

/// The place of the submission with the given accession number, or the number of submissions.
pub open spec fn accession_index(s: Seq<SubmissionModel>, accession: u64) -> nat
    decreases s.len(),
{
    if s.len() == 0 || s[0].accession == accession {
        0
    } else {
        1 + accession_index(s.drop_first(), accession)
    }
}

/// A submission with what another mention of it adds.
pub open spec fn merged(
    s: SubmissionModel,
    cik: Option<u64>,
    submission_type: Seq<char>,
    filing_date: Seq<char>,
    size_bytes: Option<u64>,
) -> SubmissionModel {
    SubmissionModel {
        ciks: match cik {
            Some(c) => if s.ciks.contains(c) {
                s.ciks
            } else {
                s.ciks.push(c)
            },
            None => s.ciks,
        },
        submission_type: if s.submission_type.len() == 0 {
            submission_type
        } else {
            s.submission_type
        },
        filing_date: if s.filing_date.len() == 0 {
            filing_date
        } else {
            s.filing_date
        },
        size_bytes: if s.size_bytes is None {
            size_bytes
        } else {
            s.size_bytes
        },
        ..s
    }
}

/// The submissions with one more mention.
pub open spec fn with_mention(
    s: Seq<SubmissionModel>,
    accession: u64,
    cik: Option<u64>,
    submission_type: Seq<char>,
    filing_date: Seq<char>,
    size_bytes: Option<u64>,
    detected_time: Timestamp,
) -> Seq<SubmissionModel> {
    let n = accession_index(s, accession);
    if n < s.len() {
        s.update(n as int, merged(s[n as int], cik, submission_type, filing_date, size_bytes))
    } else {
        s.push(
            SubmissionModel {
                accession,
                submission_type,
                ciks: match cik {
                    Some(c) => seq![c],
                    None => Seq::empty(),
                },
                filing_date,
                size_bytes,
                source: SubmissionSource::Rss,
                detected_time,
            },
        )
    }
}

/// The submissions that the first `n` entries mention; an entry without an accession number is
/// passed over.
pub open spec fn mentioned(
    entries: Seq<EntryModel>,
    accessions: Seq<Option<u64>>,
    sizes: Seq<Option<u64>>,
    detected_time: Timestamp,
    n: nat,
) -> Seq<SubmissionModel>
    decreases n,
{
    if n == 0 || n > entries.len() {
        Seq::empty()
    } else {
        let earlier = mentioned(entries, accessions, sizes, detected_time, (n - 1) as nat);
        let e = entries[n - 1];
        match accessions[n - 1] {
            Some(accession) => with_mention(
                earlier,
                accession,
                e.cik,
                e.submission_type,
                e.filing_date,
                sizes[n - 1],
                detected_time,
            ),
            None => earlier,
        }
    }
}

pub open spec fn accession_numbers(s: Seq<SubmissionModel>) -> Seq<u64> {
    s.map_values(|x: SubmissionModel| x.accession)
}

pub proof fn lemma_accession_index(s: Seq<SubmissionModel>, accession: u64)
    ensures
        accession_index(s, accession) <= s.len(),
        accession_index(s, accession) < s.len() ==> s[accession_index(
            s,
            accession,
        ) as int].accession == accession,
        forall|j: int| 0 <= j < accession_index(s, accession) ==> (#[trigger] s[j]).accession
            != accession,
    decreases s.len(),
{
    if s.len() > 0 && s[0].accession != accession {
        let t = s.drop_first();
        let n = accession_index(s, accession);
        lemma_accession_index(t, accession);
        assert forall|j: int| 0 <= j < n implies (#[trigger] s[j]).accession != accession by {
            if j > 0 {
                assert(s[j] == t[j - 1]);
            }
        }
        if n < s.len() {
            assert(s[n as int] == t[n - 1]);
        }
    }
}

/// However often a feed mentions a filing, it is listed once.
pub proof fn law_filings_are_listed_once(
    entries: Seq<EntryModel>,
    accessions: Seq<Option<u64>>,
    sizes: Seq<Option<u64>>,
    detected_time: Timestamp,
    n: nat,
)
    ensures
        accession_numbers(
            mentioned(entries, accessions, sizes, detected_time, n),
        ).no_duplicates(),
    decreases n,
{
    if 0 < n <= entries.len() {
        law_filings_are_listed_once(entries, accessions, sizes, detected_time, (n - 1) as nat);
        let earlier = mentioned(entries, accessions, sizes, detected_time, (n - 1) as nat);
        let all = mentioned(entries, accessions, sizes, detected_time, n);
        let a = accession_numbers(earlier);
        if let Some(accession) = accessions[n - 1] {
            lemma_accession_index(earlier, accession);
            let b = accession_numbers(all);
            if accession_index(earlier, accession) < earlier.len() {
                assert(b =~= a);
            } else {
                assert(b =~= a.push(accession));
                assert forall|i: int| 0 <= i < a.len() implies a[i] != accession by {
                    assert(a[i] == earlier[i].accession);
                }
            }
        }
    }
}

fn has_cik(ciks: &Vec<u64>, cik: u64) -> (r: bool)
    ensures
        r == ciks@.contains(cik),
{
    let mut i: usize = 0;
    while i < ciks.len()
        invariant
            i <= ciks@.len(),
            forall|j: int| 0 <= j < i ==> ciks@[j] != cik,
        decreases ciks@.len() - i,
    {
        if ciks[i] == cik {
            return true;
        }
        i += 1;
    }
    false
}

fn find_accession(submissions: &Vec<Submission>, accession: u64) -> (n: usize)
    ensures
        n == accession_index(submission_models(submissions@), accession),
        n <= submissions@.len(),
{
    let ghost models = submission_models(submissions@);
    let mut i: usize = 0;
    assert(models.skip(0) =~= models);
    while i < submissions.len()
        invariant
            i <= submissions@.len(),
            models == submission_models(submissions@),
            accession_index(models, accession) == i + accession_index(
                models.skip(i as int),
                accession,
            ),
        decreases submissions@.len() - i,
    {
        assert(models.skip(i as int)[0] == submissions@[i as int]@);
        assert(models.skip(i as int).drop_first() =~= models.skip(i + 1));
        if submissions[i].accession == accession {
            return i;
        }
        i += 1;
    }
    i
}

/// Adds a mention of a filing: to the submission that is there, or as a new one.
pub fn push_or_merge_submission(
    submissions: &mut Vec<Submission>,
    accession: u64,
    cik: Option<u64>,
    submission_type: &str,
    filing_date: &str,
    size_bytes: Option<u64>,
    detected_time: Timestamp,
)
    ensures
        submission_models(final(submissions)@) == with_mention(
            submission_models(old(submissions)@),
            accession,
            cik,
            submission_type@,
            filing_date@,
            size_bytes,
            detected_time,
        ),
{
    let ghost before = submissions@;
    let ghost models = submission_models(before);
    let n = find_accession(submissions, accession);
    if n < submissions.len() {
        let mut existing = submissions.remove(n);
        assert(models[n as int] == existing@);
        let ghost was = existing@;
        match cik {
            Some(c) => if !has_cik(&existing.ciks, c) {
                existing.ciks.push(c);
            },
            None => {},
        }
        if existing.submission_type.as_str().is_empty() {
            existing.submission_type = submission_type.to_owned();
        }
        if existing.filing_date.as_str().is_empty() {
            existing.filing_date = filing_date.to_owned();
        }
        if existing.size_bytes.is_none() {
            existing.size_bytes = size_bytes;
        }
        let ghost now = existing@;
        assert(now == merged(was, cik, submission_type@, filing_date@, size_bytes));
        submissions.insert(n, existing);
        assert(submission_models(submissions@) =~= models.update(n as int, now));
    } else {
        let mut ciks: Vec<u64> = Vec::new();
        match cik {
            Some(c) => ciks.push(c),
            None => {},
        }
        assert(cik is None ==> ciks@ =~= Seq::<u64>::empty());
        assert(cik matches Some(c) ==> ciks@ =~= seq![c]);
        submissions.push(
            Submission {
                accession,
                submission_type: submission_type.to_owned(),
                ciks,
                filing_date: filing_date.to_owned(),
                size_bytes,
                source: SubmissionSource::Rss,
                detected_time,
            },
        );
        assert(submission_models(submissions@) =~= models.push(submissions@.last()@));
    }
}

/// The submissions that the given entries mention, with the accession numbers and the sizes that
/// were read from them.
pub fn merge_entries(
    entries: &Vec<RssEntry>,
    accessions: &Vec<Option<u64>>,
    sizes: &Vec<Option<u64>>,
    detected_time: Timestamp,
) -> (submissions: Vec<Submission>)
    requires
        accessions@.len() == entries@.len(),
        sizes@.len() == entries@.len(),
    ensures
        submission_models(submissions@) == mentioned(
            entry_models(entries@),
            accessions@,
            sizes@,
            detected_time,
            entries@.len(),
        ),
        accession_numbers(submission_models(submissions@)).no_duplicates(),
{
    let ghost models = entry_models(entries@);
    let mut submissions: Vec<Submission> = Vec::new();
    assert(submission_models(submissions@) =~= Seq::empty());
    let mut i: usize = 0;
    while i < entries.len()
        invariant
            i <= entries@.len(),
            models == entry_models(entries@),
            accessions@.len() == entries@.len(),
            sizes@.len() == entries@.len(),
            submission_models(submissions@) == mentioned(
                models,
                accessions@,
                sizes@,
                detected_time,
                i as nat,
            ),
        decreases entries@.len() - i,
    {
        assert(models[i as int] == entries@[i as int]@);
        match accessions[i] {
            Some(accession) => push_or_merge_submission(
                &mut submissions,
                accession,
                entries[i].cik,
                entries[i].submission_type.as_str(),
                entries[i].filing_date.as_str(),
                sizes[i],
                detected_time,
            ),
            None => {},
        }
        i += 1;
    }
    proof {
        law_filings_are_listed_once(
            models,
            accessions@,
            sizes@,
            detected_time,
            entries@.len(),
        );
    }
    submissions
}

} // verus!
