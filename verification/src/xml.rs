//! XML as a sequence of events.
use quick_xml::events::attributes::Attribute;
use quick_xml::events::{BytesStart, Event};
use quick_xml::Reader;
use vstd::prelude::*;
use vstd::slice::slice_subrange;
use vstd::utf8::encode_utf8;

verus! {

#[verifier::external_type_specification]
#[verifier::external_body]
#[verifier::reject_recursive_types(R)]
pub struct ExReader<R>(quick_xml::Reader<R>);

#[verifier::external_type_specification]
#[verifier::external_body]
pub struct ExBytesStart<'a>(quick_xml::events::BytesStart<'a>);

/// An attribute: its name and its value, as they stand and with the escapes resolved.
#[derive(Debug)]
pub struct XmlAttribute {
    pub key: Vec<u8>,
    pub raw: Vec<u8>,
    /// The text, or what is wrong with it.
    pub value: Result<String, String>,
}

/// A start tag or an empty element.
#[derive(Debug)]
pub struct XmlTag {
    pub name: Vec<u8>,
    /// The attributes; in place of a malformed one, what is wrong with it.
    pub attributes: Vec<Result<XmlAttribute, String>>,
}

/// What comes next in a document.
#[derive(Debug)]
pub enum XmlEvent {
    Start(XmlTag),
    Empty(XmlTag),
    /// A text with its escapes resolved, or what is wrong with it.
    Text(Result<String, String>),
    CData(Vec<u8>),
    End(Vec<u8>),
    Eof,
    /// A comment, a declaration, a processing instruction or a document type.
    Other,
    /// The document is malformed here.
    Failed(String),
}

/// What is wrong with a document.
#[derive(Debug)]
pub struct XmlError {
    pub message: String,
}

// ---------------------------------------------------------------------------
// Model
// ---------------------------------------------------------------------------

pub struct AttributeModel {
    pub key: Seq<u8>,
    pub raw: Seq<u8>,
    pub value: Result<Seq<char>, Seq<char>>,
}

pub struct TagModel {
    pub name: Seq<u8>,
    pub attributes: Seq<Result<AttributeModel, Seq<char>>>,
}

pub enum EventModel {
    Start(TagModel),
    Empty(TagModel),
    Text(Result<Seq<char>, Seq<char>>),
    CData(Seq<u8>),
    End(Seq<u8>),
    Eof,
    Other,
    Failed(Seq<char>),
}

pub open spec fn text_result(r: Result<String, String>) -> Result<Seq<char>, Seq<char>> {
    match r {
        Ok(s) => Ok(s@),
        Err(e) => Err(e@),
    }
}

pub open spec fn attribute_result(r: Result<XmlAttribute, String>) -> Result<
    AttributeModel,
    Seq<char>,
> {
    match r {
        Ok(a) => Ok(
            AttributeModel { key: a.key@, raw: a.raw@, value: text_result(a.value) },
        ),
        Err(e) => Err(e@),
    }
}

impl View for XmlTag {
    type V = TagModel;

    open spec fn view(&self) -> TagModel {
        TagModel {
            name: self.name@,
            attributes: self.attributes@.map_values(
                |a: Result<XmlAttribute, String>| attribute_result(a),
            ),
        }
    }
}

impl View for XmlEvent {
    type V = EventModel;

    open spec fn view(&self) -> EventModel {
        match self {
            XmlEvent::Start(t) => EventModel::Start(t@),
            XmlEvent::Empty(t) => EventModel::Empty(t@),
            XmlEvent::Text(r) => EventModel::Text(text_result(*r)),
            XmlEvent::CData(b) => EventModel::CData(b@),
            XmlEvent::End(n) => EventModel::End(n@),
            XmlEvent::Eof => EventModel::Eof,
            XmlEvent::Other => EventModel::Other,
            XmlEvent::Failed(e) => EventModel::Failed(e@),
        }
    }
}

pub open spec fn event_models(events: Seq<XmlEvent>) -> Seq<EventModel> {
    events.map_values(|e: XmlEvent| e@)
}

pub open spec fn ends_document(e: EventModel) -> bool {
    e is Eof || e is Failed
}

/// Events up to the end of a document or its first error.
pub open spec fn complete(events: Seq<EventModel>) -> bool {
    &&& events.len() > 0
    &&& ends_document(events.last())
    &&& forall|i: int| 0 <= i < events.len() - 1 ==> !ends_document(#[trigger] events[i])
}

// ---------------------------------------------------------------------------
// Reading
// ---------------------------------------------------------------------------

/// The events that a reader of the given bytes gives, up to the end of the document or its first
/// error; `checks` says whether a repeated attribute counts as malformed.
pub uninterp spec fn document_events(bytes: Seq<u8>, checks: bool) -> Seq<EventModel>;

/// The events that a reader still has to give.
pub uninterp spec fn pending_events(reader: Reader<&[u8]>, checks: bool) -> Seq<EventModel>;

/// What `BytesStart::name` and `BytesStart::attributes` give for a tag.
pub uninterp spec fn start_tag(start: BytesStart<'static>, checks: bool) -> TagModel;

/// An event whose tag is still to be taken apart.
pub enum RawEvent {
    Start(BytesStart<'static>),
    Empty(BytesStart<'static>),
    Text(Result<String, String>),
    CData(Vec<u8>),
    End(Vec<u8>),
    Eof,
    Other,
    Failed(String),
}

impl RawEvent {
    pub open spec fn model(self, checks: bool) -> EventModel {
        match self {
            RawEvent::Start(start) => EventModel::Start(start_tag(start, checks)),
            RawEvent::Empty(start) => EventModel::Empty(start_tag(start, checks)),
            RawEvent::Text(r) => EventModel::Text(text_result(r)),
            RawEvent::CData(b) => EventModel::CData(b@),
            RawEvent::End(n) => EventModel::End(n@),
            RawEvent::Eof => EventModel::Eof,
            RawEvent::Other => EventModel::Other,
            RawEvent::Failed(e) => EventModel::Failed(e@),
        }
    }
}

/// `Reader::from_reader`, with the text trimmed at both ends: all events of the bytes are to
/// come. A document has an end, or an error before it.
#[verifier::external_body]
fn open_xml<'a>(bytes: &'a [u8]) -> (reader: Reader<&'a [u8]>)
    ensures
        forall|checks: bool| #[trigger]
            pending_events(reader, checks) == document_events(bytes@, checks),
        forall|checks: bool| complete(#[trigger] pending_events(reader, checks)),
{
    let mut reader = Reader::from_reader(bytes);
    reader.config_mut().trim_text(true);
    reader
}

/// `Reader::read_event_into`: the first of the events that are still to come; the others stay.
/// The text of an event is what `BytesText::unescape` gives, a name what `BytesEnd::name` gives.
#[verifier::external_body]
fn next_event(reader: &mut Reader<&[u8]>) -> (event: RawEvent)
    ensures
        forall|checks: bool| #[trigger]
            pending_events(*old(reader), checks).len() > 0 ==> event.model(checks)
                == pending_events(*old(reader), checks).first(),
        forall|checks: bool| #[trigger]
            pending_events(*old(reader), checks).len() > 0 ==> pending_events(
                *final(reader),
                checks,
            ) == pending_events(*old(reader), checks).drop_first(),
{
    match reader.read_event_into(&mut Vec::new()) {
        Ok(Event::Start(e)) => RawEvent::Start(e.into_owned()),
        Ok(Event::Empty(e)) => RawEvent::Empty(e.into_owned()),
        Ok(Event::Text(e)) => RawEvent::Text(
            e.unescape().map(String::from).map_err(|e| e.to_string()),
        ),
        Ok(Event::CData(e)) => RawEvent::CData(e.to_vec()),
        Ok(Event::End(e)) => RawEvent::End(e.name().as_ref().to_vec()),
        Ok(Event::Eof) => RawEvent::Eof,
        Ok(_) => RawEvent::Other,
        Err(e) => RawEvent::Failed(e.to_string()),
    }
}

/// `BytesStart::name` and `BytesStart::attributes`, with or without checks, and for each
/// attribute its key, its value and what `Attribute::decode_and_unescape_value` gives. The crate
/// is built without its `encoding` feature, so every reader has the same decoder, for UTF-8.
#[verifier::external_body]
fn tag_of(reader: &Reader<&[u8]>, start: &BytesStart<'static>, checks: bool) -> (tag: XmlTag)
    ensures
        tag@ == start_tag(*start, checks),
{
    let value = |a: Attribute| XmlAttribute {
        key: a.key.as_ref().to_vec(),
        raw: a.value.to_vec(),
        value: a.decode_and_unescape_value(reader.decoder()).map(String::from).map_err(
            |e| e.to_string(),
        ),
    };
    XmlTag {
        name: start.name().as_ref().to_vec(),
        attributes: start.attributes().with_checks(checks).map(
            |a| a.map(value).map_err(|e| e.to_string()),
        ).collect(),
    }
}

/// The next event of a document.
fn read_event(reader: &mut Reader<&[u8]>, checks: bool) -> (event: XmlEvent)
    requires
        pending_events(*old(reader), checks).len() > 0,
    ensures
        event@ == pending_events(*old(reader), checks).first(),
        pending_events(*final(reader), checks) == pending_events(
            *old(reader),
            checks,
        ).drop_first(),
{
    match next_event(reader) {
        RawEvent::Start(start) => XmlEvent::Start(tag_of(reader, &start, checks)),
        RawEvent::Empty(start) => XmlEvent::Empty(tag_of(reader, &start, checks)),
        RawEvent::Text(r) => XmlEvent::Text(r),
        RawEvent::CData(b) => XmlEvent::CData(b),
        RawEvent::End(n) => XmlEvent::End(n),
        RawEvent::Eof => XmlEvent::Eof,
        RawEvent::Other => XmlEvent::Other,
        RawEvent::Failed(e) => XmlEvent::Failed(e),
    }
}

/// All events of a document, up to its end or its first error.
pub fn read_events(bytes: &[u8], checks: bool) -> (events: Vec<XmlEvent>)
    ensures
        event_models(events@) == document_events(bytes@, checks),
        complete(event_models(events@)),
{
    let mut reader = open_xml(bytes);
    let ghost all = pending_events(reader, checks);
    let mut events: Vec<XmlEvent> = Vec::new();
    assert(event_models(events@) =~= all.take(0));
    assert(all.skip(0) =~= all);
    loop
        invariant
            complete(all),
            all == document_events(bytes@, checks),
            events@.len() < all.len(),
            event_models(events@) == all.take(events@.len() as int),
            pending_events(reader, checks) == all.skip(events@.len() as int),
        decreases all.len() - events@.len(),
    {
        let ghost n = events@.len() as int;
        let ghost before = events@;
        let event = read_event(&mut reader, checks);
        assert(event@ == all[n]);
        let last = match &event {
            XmlEvent::Eof => true,
            XmlEvent::Failed(_) => true,
            _ => false,
        };
        events.push(event);
        assert(event_models(events@) =~= event_models(before).push(event@));
        assert(event_models(events@) =~= all.take(n + 1));
        assert(all.skip(n).drop_first() =~= all.skip(n + 1));
        if last {
            assert(all.take(n + 1) =~= all);
            return events;
        }
    }
}

// ---------------------------------------------------------------------------
// Names
// ---------------------------------------------------------------------------

pub open spec fn lower_byte(b: u8) -> u8 {
    if 65 <= b <= 90 {
        (b + 32) as u8
    } else {
        b
    }
}

/// The bytes with ASCII capitals made small.
pub open spec fn lower_bytes(s: Seq<u8>) -> Seq<u8> {
    s.map_values(|b: u8| lower_byte(b))
}

/// How many bytes stand before the first colon.
pub open spec fn colon_index(name: Seq<u8>) -> nat
    decreases name.len(),
{
    if name.len() == 0 || name[0] == 58 {
        0
    } else {
        1 + colon_index(name.drop_first())
    }
}

/// A name without its namespace prefix.
pub open spec fn local_part(name: Seq<u8>) -> Seq<u8> {
    if colon_index(name) < name.len() {
        name.skip(colon_index(name) as int + 1)
    } else {
        name
    }
}

pub proof fn lemma_colon_index(name: Seq<u8>, n: int)
    requires
        0 <= n <= name.len(),
        forall|j: int| 0 <= j < n ==> name[j] != 58,
        n == name.len() || name[n] == 58,
    ensures
        colon_index(name) == n,
    decreases name.len(),
{
    if n > 0 {
        assert forall|j: int| 0 <= j < n - 1 implies name.drop_first()[j] != 58 by {
            assert(name[j + 1] != 58);
        }
        lemma_colon_index(name.drop_first(), n - 1);
    }
}

/// The name without its namespace prefix.
pub fn local_name(name: &[u8]) -> (out: &[u8])
    ensures
        out@ == local_part(name@),
{
    let mut i: usize = 0;
    while i < name.len()
        invariant
            i <= name@.len(),
            forall|j: int| 0 <= j < i ==> name@[j] != 58,
        decreases name@.len() - i,
    {
        if name[i] == 58 {
            proof {
                lemma_colon_index(name@, i as int);
            }
            let out = slice_subrange(name, i + 1, name.len());
            assert(out@ =~= local_part(name@));
            return out;
        }
        i += 1;
    }
    proof {
        lemma_colon_index(name@, i as int);
    }
    name
}

fn byte_lower(b: u8) -> (r: u8)
    ensures
        r == lower_byte(b),
{
    if 65 <= b && b <= 90 {
        b + 32
    } else {
        b
    }
}

/// Whether two byte strings differ in the case of ASCII letters at most.
pub fn same_ignoring_case(a: &[u8], b: &[u8]) -> (r: bool)
    ensures
        r == (lower_bytes(a@) == lower_bytes(b@)),
{
    if a.len() != b.len() {
        assert(lower_bytes(a@).len() != lower_bytes(b@).len());
        return false;
    }
    let mut i: usize = 0;
    while i < a.len()
        invariant
            i <= a@.len() == b@.len(),
            forall|j: int| 0 <= j < i ==> lower_byte(a@[j]) == lower_byte(b@[j]),
        decreases a@.len() - i,
    {
        if byte_lower(a[i]) != byte_lower(b[i]) {
            assert(lower_bytes(a@)[i as int] != lower_bytes(b@)[i as int]);
            return false;
        }
        i += 1;
    }
    assert(lower_bytes(a@) =~= lower_bytes(b@));
    true
}

/// Whether the local part of a name is the given one, whatever the case of its letters.
pub open spec fn has_local_name(name: Seq<u8>, expected: Seq<char>) -> bool {
    lower_bytes(local_part(name)) == lower_bytes(encode_utf8(expected))
}

pub fn is_local_name(name: &[u8], expected: &str) -> (r: bool)
    ensures
        r == has_local_name(name@, expected@),
{
    same_ignoring_case(local_name(name), expected.as_bytes())
}

} // verus!
