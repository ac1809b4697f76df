//! The facts of an XBRL document, and the simple records that they make.
use vstd::hash_map::StringHashMap;
use vstd::prelude::*;

use crate::encoding::{lossy_string, utf8_lossy};
use crate::ordered_map::{
    in_key_order, law_put_keeps_order, law_put_then_lookup, lookup, put, Entries, XbrlMap,
};
use crate::scale::{scaled, scaled_value};
use crate::text::{
    chars_of, copy_chars, cut_once, has_prefix, join, join_strings, law_trim_once, opt_text,
    push_chars, split_once, string_of, texts, trim, trim_space,
};
use crate::xml::{
    attribute_result, document_events, event_models, has_local_name, is_local_name, read_events,
    AttributeModel, EventModel, TagModel, XmlError, XmlEvent, XmlTag,
};

verus! {

/// How facts are marked in a document.
#[derive(Debug, Clone, Copy, PartialEq, Eq, Structural)]
pub enum XbrlFileType {
    /// As elements of their own inside a page.
    Inline,
    /// As elements named after what they state, with a reference to a context.
    ExtractedInline,
}

/// A fact: its value, its attributes and the context that it refers to.
#[derive(Debug, Clone, PartialEq, Eq)]
pub struct XbrlFact {
    pub val: Option<String>,
    pub attributes: XbrlMap,
    pub context: Option<XbrlMap>,
}

/// A fact as a row of a table.
#[derive(Debug, Clone, PartialEq, Eq)]
pub struct SimpleXbrlRecord {
    pub accession_number: u64,
    pub context_id: Option<u64>,
    pub taxonomy: String,
    pub name: String,
    pub value: Option<String>,
    pub period_start_date: Option<String>,
    pub period_end_date: Option<String>,
    pub members: Option<String>,
}

// ---------------------------------------------------------------------------
// Model
// ---------------------------------------------------------------------------

pub struct FactModel {
    pub val: Option<Seq<char>>,
    pub attributes: Entries,
    pub context: Option<Entries>,
}

pub open spec fn opt_entries(m: Option<XbrlMap>) -> Option<Entries> {
    match m {
        Some(m) => Some(m@),
        None => None,
    }
}

impl View for XbrlFact {
    type V = FactModel;

    open spec fn view(&self) -> FactModel {
        FactModel {
            val: opt_text(self.val),
            attributes: self.attributes@,
            context: opt_entries(self.context),
        }
    }
}

pub open spec fn fact_models(facts: Seq<XbrlFact>) -> Seq<FactModel> {
    facts.map_values(|f: XbrlFact| f@)
}

/// The attributes from the `i`-th on, added to `acc`.
pub open spec fn attributes_from(
    s: Seq<Result<AttributeModel, Seq<char>>>,
    i: int,
    acc: Entries,
) -> Result<Entries, Seq<char>>
    decreases s.len() - i,
{
    if i >= s.len() {
        Ok(acc)
    } else {
        match s[i] {
            Err(e) => Err(e),
            Ok(a) => match a.value {
                Err(e) => Err(e),
                Ok(v) => attributes_from(s, i + 1, put(acc, utf8_lossy(a.key), v)),
            },
        }
    }
}

/// The attributes of a tag by name; where a name is repeated, the last value counts.
pub open spec fn attribute_map(tag: TagModel) -> Result<Entries, Seq<char>> {
    attributes_from(tag.attributes, 0, Seq::empty())
}

/// A fact whose end is still to come.
pub struct OpenFact {
    pub val: Seq<char>,
    pub attributes: Entries,
    pub context_ref: Option<Seq<char>>,
    pub depth: nat,
}

/// The fact that a tag begins, if it begins one.
pub open spec fn begun_fact(tag: TagModel, file_type: XbrlFileType) -> Result<
    Option<OpenFact>,
    Seq<char>,
> {
    if file_type == XbrlFileType::Inline && !has_local_name(tag.name, "nonfraction"@)
        && !has_local_name(tag.name, "nonnumeric"@) {
        Ok(None)
    } else {
        match attribute_map(tag) {
            Err(e) => Err(e),
            Ok(attributes) => {
                let context_ref = lookup(attributes, "contextRef"@);
                if file_type == XbrlFileType::ExtractedInline && context_ref is None {
                    Ok(None)
                } else {
                    let named = if file_type == XbrlFileType::ExtractedInline && lookup(
                        attributes,
                        "name"@,
                    ) is None {
                        put(attributes, "name"@, utf8_lossy(tag.name))
                    } else {
                        attributes
                    };
                    Ok(
                        Some(
                            OpenFact {
                                val: Seq::empty(),
                                attributes: named,
                                context_ref: lookup(named, "contextRef"@),
                                depth: 1,
                            },
                        ),
                    )
                }
            },
        }
    }
}

/// A fact at its end: an empty value counts as none.
pub open spec fn ended_fact(fact: OpenFact, contexts: Map<Seq<char>, Entries>) -> FactModel {
    let val = trim(fact.val);
    FactModel {
        val: if val.len() == 0 {
            None
        } else {
            Some(val)
        },
        attributes: fact.attributes,
        context: match fact.context_ref {
            Some(r) => if contexts.contains_key(r) {
                Some(contexts[r])
            } else {
                None
            },
            None => None,
        },
    }
}

/// The facts that the events from the `i`-th on add to `facts`, with `current` begun.
pub open spec fn facts_from(
    events: Seq<EventModel>,
    i: int,
    facts: Seq<FactModel>,
    current: Option<OpenFact>,
    contexts: Map<Seq<char>, Entries>,
    file_type: XbrlFileType,
) -> Result<Seq<FactModel>, Seq<char>>
    decreases events.len() - i,
{
    if i >= events.len() {
        Ok(facts)
    } else {
        match (events[i], current) {
            (EventModel::Eof, _) => Ok(facts),
            (EventModel::Failed(e), _) => Err(e),
            (EventModel::Start(_), Some(f)) => facts_from(
                events,
                i + 1,
                facts,
                Some(OpenFact { depth: f.depth + 1, ..f }),
                contexts,
                file_type,
            ),
            (EventModel::Start(t), None) => match begun_fact(t, file_type) {
                Err(e) => Err(e),
                Ok(begun) => facts_from(events, i + 1, facts, begun, contexts, file_type),
            },
            (EventModel::Empty(t), None) => match begun_fact(t, file_type) {
                Err(e) => Err(e),
                Ok(Some(f)) => facts_from(
                    events,
                    i + 1,
                    facts.push(ended_fact(f, contexts)),
                    None,
                    contexts,
                    file_type,
                ),
                Ok(None) => facts_from(events, i + 1, facts, None, contexts, file_type),
            },
            (EventModel::Text(r), Some(f)) => match r {
                Err(e) => Err(e),
                Ok(s) => facts_from(
                    events,
                    i + 1,
                    facts,
                    Some(OpenFact { val: f.val + s, ..f }),
                    contexts,
                    file_type,
                ),
            },
            (EventModel::CData(b), Some(f)) => facts_from(
                events,
                i + 1,
                facts,
                Some(OpenFact { val: f.val + utf8_lossy(b), ..f }),
                contexts,
                file_type,
            ),
            (EventModel::End(_), Some(f)) => if f.depth > 1 {
                facts_from(
                    events,
                    i + 1,
                    facts,
                    Some(OpenFact { depth: (f.depth - 1) as nat, ..f }),
                    contexts,
                    file_type,
                )
            } else {
                facts_from(
                    events,
                    i + 1,
                    facts.push(ended_fact(f, contexts)),
                    None,
                    contexts,
                    file_type,
                )
            },
            _ => facts_from(events, i + 1, facts, current, contexts, file_type),
        }
    }
}

/// A context whose end is still to come.
pub struct OpenContext {
    pub id: Option<Seq<char>>,
    pub data: Entries,
    pub text_key: Option<Seq<char>>,
    pub depth: nat,
}

/// The key under which a context keeps the text of an element.
pub open spec fn text_key_of(tag: TagModel) -> Result<Option<Seq<char>>, Seq<char>> {
    if has_local_name(tag.name, "identifier"@) {
        Ok(Some("entity_identifier"@))
    } else if has_local_name(tag.name, "instant"@) {
        Ok(Some("period_instant"@))
    } else if has_local_name(tag.name, "startdate"@) {
        Ok(Some("period_startdate"@))
    } else if has_local_name(tag.name, "enddate"@) {
        Ok(Some("period_enddate"@))
    } else if has_local_name(tag.name, "explicitmember"@) {
        match attribute_map(tag) {
            Err(e) => Err(e),
            Ok(attributes) => match lookup(attributes, "dimension"@) {
                Some(d) => Ok(Some("dimension:"@ + d)),
                None => Ok(Some("explicitmember"@)),
            },
        }
    } else {
        Ok(None)
    }
}

/// The dimension that an empty element gives a context.
pub open spec fn empty_key_of(tag: TagModel) -> Result<Option<Seq<char>>, Seq<char>> {
    if has_local_name(tag.name, "explicitmember"@) {
        match attribute_map(tag) {
            Err(e) => Err(e),
            Ok(attributes) => match lookup(attributes, "dimension"@) {
                Some(d) => Ok(Some("dimension:"@ + d)),
                None => Ok(None),
            },
        }
    } else {
        Ok(None)
    }
}

/// The context that a tag begins.
pub open spec fn begun_context(attributes: Entries) -> OpenContext {
    let id = match lookup(attributes, "id"@) {
        Some(id) => Some(id),
        None => lookup(attributes, "xml:id"@),
    };
    OpenContext {
        id,
        data: match id {
            Some(id) => put(Seq::empty(), "_contextref"@, id),
            None => Seq::empty(),
        },
        text_key: None,
        depth: 1,
    }
}

/// The data with a text added behind what is there under the key.
pub open spec fn text_added(data: Entries, key: Seq<char>, text: Seq<char>) -> Entries {
    match lookup(data, key) {
        Some(v) => put(data, key, v + text),
        None => put(data, key, text),
    }
}

/// A context with a text taken in.
pub open spec fn context_with_text(c: OpenContext, text: Seq<char>) -> OpenContext {
    match c.text_key {
        Some(key) => OpenContext { data: text_added(c.data, key, text), ..c },
        None => c,
    }
}

/// The contexts that the events from the `i`-th on add, with `current` begun.
pub open spec fn contexts_from(
    events: Seq<EventModel>,
    i: int,
    contexts: Map<Seq<char>, Entries>,
    current: Option<OpenContext>,
) -> Result<Map<Seq<char>, Entries>, Seq<char>>
    decreases events.len() - i,
{
    if i >= events.len() {
        Ok(contexts)
    } else {
        match (events[i], current) {
            (EventModel::Eof, _) => Ok(contexts),
            (EventModel::Failed(e), _) => Err(e),
            (EventModel::Start(t), Some(c)) => match text_key_of(t) {
                Err(e) => Err(e),
                Ok(text_key) => contexts_from(
                    events,
                    i + 1,
                    contexts,
                    Some(OpenContext { depth: c.depth + 1, text_key, ..c }),
                ),
            },
            (EventModel::Start(t), None) => if has_local_name(t.name, "context"@) {
                match attribute_map(t) {
                    Err(e) => Err(e),
                    Ok(attributes) => contexts_from(
                        events,
                        i + 1,
                        contexts,
                        Some(begun_context(attributes)),
                    ),
                }
            } else {
                contexts_from(events, i + 1, contexts, None)
            },
            (EventModel::Empty(t), Some(c)) => match empty_key_of(t) {
                Err(e) => Err(e),
                Ok(Some(key)) => contexts_from(
                    events,
                    i + 1,
                    contexts,
                    Some(OpenContext { data: put(c.data, key, Seq::empty()), ..c }),
                ),
                Ok(None) => contexts_from(events, i + 1, contexts, Some(c)),
            },
            (EventModel::Text(r), Some(c)) => contexts_from(
                events,
                i + 1,
                contexts,
                Some(
                    context_with_text(
                        c,
                        match r {
                            Ok(s) => s,
                            Err(_) => Seq::empty(),
                        },
                    ),
                ),
            ),
            (EventModel::CData(b), Some(c)) => contexts_from(
                events,
                i + 1,
                contexts,
                Some(context_with_text(c, utf8_lossy(b))),
            ),
            (EventModel::End(n), Some(c)) => if c.depth > 1 {
                contexts_from(
                    events,
                    i + 1,
                    contexts,
                    Some(OpenContext { text_key: None, depth: (c.depth - 1) as nat, ..c }),
                )
            } else if has_local_name(n, "context"@) {
                contexts_from(
                    events,
                    i + 1,
                    match c.id {
                        Some(id) => contexts.insert(id, c.data),
                        None => contexts,
                    },
                    None,
                )
            } else {
                contexts_from(
                    events,
                    i + 1,
                    contexts,
                    Some(OpenContext { text_key: None, ..c }),
                )
            },
            _ => contexts_from(events, i + 1, contexts, current),
        }
    }
}

/// The contexts of a document by their identifiers.
pub open spec fn document_contexts(events: Seq<EventModel>) -> Result<
    Map<Seq<char>, Entries>,
    Seq<char>,
> {
    contexts_from(events, 0, Map::empty(), None)
}

/// The facts of a document, each with its context.
pub open spec fn document_facts(events: Seq<EventModel>, file_type: XbrlFileType) -> Result<
    Seq<FactModel>,
    Seq<char>,
> {
    match document_contexts(events) {
        Err(e) => Err(e),
        Ok(contexts) => facts_from(events, 0, Seq::empty(), None, contexts, file_type),
    }
}

// ---------------------------------------------------------------------------
// Tags
// ---------------------------------------------------------------------------

fn copy_error(message: &String) -> (e: XmlError)
    ensures
        e.message@ == message@,
{
    XmlError { message: message.clone() }
}

/// The attributes of a tag by name.
pub fn attributes_to_map(tag: &XmlTag) -> (r: Result<XbrlMap, XmlError>)
    ensures
        match r {
            Ok(m) => attribute_map(tag@) == Ok::<Entries, Seq<char>>(m@),
            Err(e) => attribute_map(tag@) == Err::<Entries, Seq<char>>(e.message@),
        },
{
    let mut attributes = XbrlMap::new();
    let mut i: usize = 0;
    while i < tag.attributes.len()
        invariant
            i <= tag.attributes@.len(),
            tag@.attributes.len() == tag.attributes@.len(),
            attribute_map(tag@) == attributes_from(tag@.attributes, i as int, attributes@),
        decreases tag.attributes@.len() - i,
    {
        assert(tag@.attributes[i as int] == attribute_result(tag.attributes@[i as int]));
        match &tag.attributes[i] {
            Err(e) => {
                return Err(copy_error(e));
            },
            Ok(a) => match &a.value {
                Err(e) => {
                    return Err(copy_error(e));
                },
                Ok(v) => {
                    attributes.insert(lossy_string(&a.key), v.clone());
                },
            },
        }
        i += 1;
    }
    Ok(attributes)
}

fn get_owned(m: &XbrlMap, key: &str) -> (out: Option<String>)
    ensures
        opt_text(out) == lookup(m@, key@),
{
    match m.get(key) {
        Some(v) => Some(v.clone()),
        None => None,
    }
}

struct FactBuilder {
    val: Vec<char>,
    attributes: XbrlMap,
    context_ref: Option<String>,
    depth: usize,
}

impl FactBuilder {
    spec fn model(self) -> OpenFact {
        OpenFact {
            val: self.val@,
            attributes: self.attributes@,
            context_ref: opt_text(self.context_ref),
            depth: self.depth as nat,
        }
    }
}

spec fn opt_fact(f: Option<FactBuilder>) -> Option<OpenFact> {
    match f {
        Some(f) => Some(f.model()),
        None => None,
    }
}

fn start_fact(tag: &XmlTag, file_type: XbrlFileType) -> (r: Result<Option<FactBuilder>, XmlError>)
    ensures
        match r {
            Ok(f) => begun_fact(tag@, file_type) == Ok::<Option<OpenFact>, Seq<char>>(opt_fact(f)),
            Err(e) => begun_fact(tag@, file_type) == Err::<Option<OpenFact>, Seq<char>>(
                e.message@,
            ),
        },
        r matches Ok(Some(f)) ==> f.depth == 1,
{
    if file_type == XbrlFileType::Inline && !is_local_name(&tag.name, "nonfraction")
        && !is_local_name(&tag.name, "nonnumeric") {
        return Ok(None);
    }
    let mut attributes = match attributes_to_map(tag) {
        Ok(m) => m,
        Err(e) => {
            return Err(e);
        },
    };
    if file_type == XbrlFileType::ExtractedInline {
        if !attributes.contains_key("contextRef") {
            return Ok(None);
        }
        if !attributes.contains_key("name") {
            attributes.insert("name".to_owned(), lossy_string(&tag.name));
        }
    }
    let context_ref = get_owned(&attributes, "contextRef");
    let fact = FactBuilder { val: Vec::new(), attributes, context_ref, depth: 1 };
    assert(fact.val@ =~= Seq::<char>::empty());
    Ok(Some(fact))
}

pub open spec fn context_entries(contexts: Map<Seq<char>, XbrlMap>) -> Map<Seq<char>, Entries> {
    contexts.map_values(|m: XbrlMap| m@)
}

fn finish_fact(fact: FactBuilder, contexts: &StringHashMap<XbrlMap>) -> (out: XbrlFact)
    ensures
        out@ == ended_fact(fact.model(), context_entries(contexts@)),
{
    let FactBuilder { val, attributes, context_ref, depth: _ } = fact;
    let trimmed = trim_space(&val);
    let val = if trimmed.len() == 0 {
        None
    } else {
        Some(string_of(trimmed))
    };
    let context = match &context_ref {
        Some(r) => match contexts.get(r.as_str()) {
            Some(m) => Some(m.duplicate()),
            None => None,
        },
        None => None,
    };
    XbrlFact { val, attributes, context }
}

/// The facts that the given events state, with the given contexts.
pub fn parse_facts(
    events: &[XmlEvent],
    contexts: &StringHashMap<XbrlMap>,
    file_type: XbrlFileType,
) -> (r: Result<Vec<XbrlFact>, XmlError>)
    ensures
        ({
            let spec = facts_from(
                event_models(events@),
                0,
                Seq::empty(),
                None,
                context_entries(contexts@),
                file_type,
            );
            match r {
                Ok(facts) => spec == Ok::<Seq<FactModel>, Seq<char>>(fact_models(facts@)),
                Err(e) => spec == Err::<Seq<FactModel>, Seq<char>>(e.message@),
            }
        }),
{
    let ghost models = event_models(events@);
    let ghost ctx = context_entries(contexts@);
    let mut facts: Vec<XbrlFact> = Vec::new();
    let mut current: Option<FactBuilder> = None;
    assert(fact_models(facts@) =~= Seq::empty());
    let ghost whole = facts_from(models, 0, Seq::empty(), None, ctx, file_type);
    let mut i: usize = 0;
    while i < events.len()
        invariant
            i <= events@.len(),
            models == event_models(events@),
            ctx == context_entries(contexts@),
            current matches Some(f) ==> 1 <= f.depth <= i,
            whole == facts_from(models, 0, Seq::empty(), None, ctx, file_type),
            whole == facts_from(
                models,
                i as int,
                fact_models(facts@),
                opt_fact(current),
                ctx,
                file_type,
            ),
        decreases events@.len() - i,
    {
        assert(models[i as int] == events@[i as int]@);
        let ghost earlier = facts@;
        match &events[i] {
            XmlEvent::Eof => {
                return Ok(facts);
            },
            XmlEvent::Failed(e) => {
                return Err(copy_error(e));
            },
            XmlEvent::Start(tag) => match current {
                Some(mut fact) => {
                    fact.depth = fact.depth + 1;
                    current = Some(fact);
                },
                None => match start_fact(tag, file_type) {
                    Ok(begun) => {
                        current = begun;
                    },
                    Err(e) => {
                        return Err(e);
                    },
                },
            },
            XmlEvent::Empty(tag) => if current.is_none() {
                match start_fact(tag, file_type) {
                    Ok(Some(fact)) => {
                        facts.push(finish_fact(fact, contexts));
                        assert(fact_models(facts@) =~= fact_models(earlier).push(facts@.last()@));
                    },
                    Ok(None) => {},
                    Err(e) => {
                        return Err(e);
                    },
                }
            },
            XmlEvent::Text(text) => match current {
                Some(mut fact) => match text {
                    Ok(s) => {
                        push_chars(&mut fact.val, &chars_of(s.as_str()));
                        current = Some(fact);
                    },
                    Err(e) => {
                        return Err(copy_error(e));
                    },
                },
                None => {
                    current = None;
                },
            },
            XmlEvent::CData(bytes) => match current {
                Some(mut fact) => {
                    push_chars(&mut fact.val, &chars_of(lossy_string(bytes).as_str()));
                    current = Some(fact);
                },
                None => {
                    current = None;
                },
            },
            XmlEvent::End(_) => match current {
                Some(mut fact) => if fact.depth > 1 {
                    fact.depth = fact.depth - 1;
                    current = Some(fact);
                } else {
                    facts.push(finish_fact(fact, contexts));
                    assert(fact_models(facts@) =~= fact_models(earlier).push(facts@.last()@));
                    current = None;
                },
                None => {
                    current = None;
                },
            },
            XmlEvent::Other => {},
        }
        i += 1;
    }
    Ok(facts)
}

struct ContextBuilder {
    id: Option<String>,
    data: XbrlMap,
    text_key: Option<String>,
    depth: usize,
}

impl ContextBuilder {
    spec fn model(self) -> OpenContext {
        OpenContext {
            id: opt_text(self.id),
            data: self.data@,
            text_key: opt_text(self.text_key),
            depth: self.depth as nat,
        }
    }
}

spec fn opt_context(c: Option<ContextBuilder>) -> Option<OpenContext> {
    match c {
        Some(c) => Some(c.model()),
        None => None,
    }
}

fn dimension_key(dimension: &String) -> (key: String)
    ensures
        key@ == "dimension:"@ + dimension@,
{
    let mut key = chars_of("dimension:");
    push_chars(&mut key, &chars_of(dimension.as_str()));
    string_of(&key)
}

fn context_text_key(tag: &XmlTag) -> (r: Result<Option<String>, XmlError>)
    ensures
        match r {
            Ok(key) => text_key_of(tag@) == Ok::<Option<Seq<char>>, Seq<char>>(opt_text(key)),
            Err(e) => text_key_of(tag@) == Err::<Option<Seq<char>>, Seq<char>>(e.message@),
        },
{
    if is_local_name(&tag.name, "identifier") {
        return Ok(Some("entity_identifier".to_owned()));
    }
    if is_local_name(&tag.name, "instant") {
        return Ok(Some("period_instant".to_owned()));
    }
    if is_local_name(&tag.name, "startdate") {
        return Ok(Some("period_startdate".to_owned()));
    }
    if is_local_name(&tag.name, "enddate") {
        return Ok(Some("period_enddate".to_owned()));
    }
    if is_local_name(&tag.name, "explicitmember") {
        let attributes = match attributes_to_map(tag) {
            Ok(m) => m,
            Err(e) => {
                return Err(e);
            },
        };
        return match attributes.get("dimension") {
            Some(d) => Ok(Some(dimension_key(d))),
            None => Ok(Some("explicitmember".to_owned())),
        };
    }
    Ok(None)
}

fn empty_context_key(tag: &XmlTag) -> (r: Result<Option<String>, XmlError>)
    ensures
        match r {
            Ok(key) => empty_key_of(tag@) == Ok::<Option<Seq<char>>, Seq<char>>(opt_text(key)),
            Err(e) => empty_key_of(tag@) == Err::<Option<Seq<char>>, Seq<char>>(e.message@),
        },
{
    if is_local_name(&tag.name, "explicitmember") {
        let attributes = match attributes_to_map(tag) {
            Ok(m) => m,
            Err(e) => {
                return Err(e);
            },
        };
        return match attributes.get("dimension") {
            Some(d) => Ok(Some(dimension_key(d))),
            None => Ok(None),
        };
    }
    Ok(None)
}

fn start_context(attributes: &XbrlMap) -> (c: ContextBuilder)
    ensures
        c.model() == begun_context(attributes@),
        c.depth == 1,
{
    let id = match get_owned(attributes, "id") {
        Some(id) => Some(id),
        None => get_owned(attributes, "xml:id"),
    };
    let mut data = XbrlMap::new();
    match &id {
        Some(id) => {
            data.insert("_contextref".to_owned(), id.clone());
        },
        None => {},
    }
    ContextBuilder { id, data, text_key: None, depth: 1 }
}

fn add_context_text(context: ContextBuilder, text: &[char]) -> (out: ContextBuilder)
    ensures
        out.model() == context_with_text(context.model(), text@),
        out.depth == context.depth,
{
    let ContextBuilder { id, mut data, text_key, depth } = context;
    match &text_key {
        Some(key) => {
            let value = match data.get(key.as_str()) {
                Some(v) => {
                    let mut value = chars_of(v.as_str());
                    push_chars(&mut value, text);
                    value
                },
                None => copy_chars(text),
            };
            data.insert(key.clone(), string_of(&value));
        },
        None => {},
    }
    ContextBuilder { id, data, text_key, depth }
}

/// The contexts that the given events state, by their identifiers.
pub fn parse_contexts(events: &[XmlEvent]) -> (r: Result<StringHashMap<XbrlMap>, XmlError>)
    ensures
        match r {
            Ok(contexts) => document_contexts(event_models(events@)) == Ok::<
                Map<Seq<char>, Entries>,
                Seq<char>,
            >(context_entries(contexts@)),
            Err(e) => document_contexts(event_models(events@)) == Err::<
                Map<Seq<char>, Entries>,
                Seq<char>,
            >(e.message@),
        },
{
    let ghost models = event_models(events@);
    let ghost whole = document_contexts(models);
    let mut contexts: StringHashMap<XbrlMap> = StringHashMap::new();
    let mut current: Option<ContextBuilder> = None;
    assert(context_entries(contexts@) =~= Map::empty());
    let mut i: usize = 0;
    while i < events.len()
        invariant
            i <= events@.len(),
            models == event_models(events@),
            whole == document_contexts(models),
            current matches Some(c) ==> 1 <= c.depth <= i,
            whole == contexts_from(
                models,
                i as int,
                context_entries(contexts@),
                opt_context(current),
            ),
        decreases events@.len() - i,
    {
        assert(models[i as int] == events@[i as int]@);
        let ghost earlier = contexts@;
        match &events[i] {
            XmlEvent::Eof => {
                return Ok(contexts);
            },
            XmlEvent::Failed(e) => {
                return Err(copy_error(e));
            },
            XmlEvent::Start(tag) => match current {
                Some(mut context) => {
                    context.depth = context.depth + 1;
                    match context_text_key(tag) {
                        Ok(key) => {
                            context.text_key = key;
                        },
                        Err(e) => {
                            return Err(e);
                        },
                    }
                    current = Some(context);
                },
                None => {
                    current = None;
                    if is_local_name(&tag.name, "context") {
                        match attributes_to_map(tag) {
                            Ok(attributes) => {
                                current = Some(start_context(&attributes));
                            },
                            Err(e) => {
                                return Err(e);
                            },
                        }
                    }
                },
            },
            XmlEvent::Empty(tag) => match current {
                Some(mut context) => {
                    match empty_context_key(tag) {
                        Ok(Some(key)) => {
                            let empty = String::new();
                            assert(empty@ =~= Seq::<char>::empty());
                            let mut data = context.data;
                            data.insert(key, empty);
                            context.data = data;
                        },
                        Ok(None) => {},
                        Err(e) => {
                            return Err(e);
                        },
                    }
                    current = Some(context);
                },
                None => {
                    current = None;
                },
            },
            XmlEvent::Text(text) => match current {
                Some(context) => {
                    let chars = match text {
                        Ok(s) => chars_of(s.as_str()),
                        Err(_) => {
                            let none: Vec<char> = Vec::new();
                            assert(none@ =~= Seq::<char>::empty());
                            none
                        },
                    };
                    current = Some(add_context_text(context, &chars));
                },
                None => {
                    current = None;
                },
            },
            XmlEvent::CData(bytes) => match current {
                Some(context) => {
                    let chars = chars_of(lossy_string(bytes).as_str());
                    current = Some(add_context_text(context, &chars));
                },
                None => {
                    current = None;
                },
            },
            XmlEvent::End(name) => match current {
                Some(mut context) => {
                    context.text_key = None;
                    if context.depth > 1 {
                        context.depth = context.depth - 1;
                        current = Some(context);
                    } else if is_local_name(name, "context") {
                        current = None;
                        match context.id {
                            Some(id) => {
                                let ghost key = id@;
                                let ghost data = context.data@;
                                contexts.insert(id, context.data);
                                assert(context_entries(contexts@) =~= context_entries(
                                    earlier,
                                ).insert(key, data));
                            },
                            None => {},
                        }
                    } else {
                        current = Some(context);
                    }
                },
                None => {
                    current = None;
                },
            },
            XmlEvent::Other => {},
        }
        i += 1;
    }
    Ok(contexts)
}

/// The facts that the given events state.
pub fn facts_of_events(events: &[XmlEvent], file_type: XbrlFileType) -> (r: Result<
    Vec<XbrlFact>,
    XmlError,
>)
    ensures
        match r {
            Ok(facts) => document_facts(event_models(events@), file_type) == Ok::<
                Seq<FactModel>,
                Seq<char>,
            >(fact_models(facts@)),
            Err(e) => document_facts(event_models(events@), file_type) == Err::<
                Seq<FactModel>,
                Seq<char>,
            >(e.message@),
        },
{
    match parse_contexts(events) {
        Ok(contexts) => parse_facts(events, &contexts, file_type),
        Err(e) => Err(e),
    }
}

/// The facts of a document.
pub fn parse_xbrl(bytes: &[u8], file_type: XbrlFileType) -> (r: Result<Vec<XbrlFact>, XmlError>)
    ensures
        match r {
            Ok(facts) => document_facts(document_events(bytes@, false), file_type) == Ok::<
                Seq<FactModel>,
                Seq<char>,
            >(fact_models(facts@)),
            Err(e) => document_facts(document_events(bytes@, false), file_type) == Err::<
                Seq<FactModel>,
                Seq<char>,
            >(e.message@),
        },
{
    match file_type {
        XbrlFileType::Inline => parse_inline_xbrl(bytes),
        XbrlFileType::ExtractedInline => parse_extracted_inline_xbrl(bytes),
    }
}

/// The facts that are marked inside a page.
pub fn parse_inline_xbrl(bytes: &[u8]) -> (r: Result<Vec<XbrlFact>, XmlError>)
    ensures
        match r {
            Ok(facts) => document_facts(document_events(bytes@, false), XbrlFileType::Inline)
                == Ok::<Seq<FactModel>, Seq<char>>(fact_models(facts@)),
            Err(e) => document_facts(document_events(bytes@, false), XbrlFileType::Inline)
                == Err::<Seq<FactModel>, Seq<char>>(e.message@),
        },
{
    facts_of_events(&read_events(bytes, false), XbrlFileType::Inline)
}

/// The facts of a document that holds nothing else.
pub fn parse_extracted_inline_xbrl(bytes: &[u8]) -> (r: Result<Vec<XbrlFact>, XmlError>)
    ensures
        match r {
            Ok(facts) => document_facts(
                document_events(bytes@, false),
                XbrlFileType::ExtractedInline,
            ) == Ok::<Seq<FactModel>, Seq<char>>(fact_models(facts@)),
            Err(e) => document_facts(
                document_events(bytes@, false),
                XbrlFileType::ExtractedInline,
            ) == Err::<Seq<FactModel>, Seq<char>>(e.message@),
        },
{
    facts_of_events(&read_events(bytes, false), XbrlFileType::ExtractedInline)
}

// ---------------------------------------------------------------------------
// Records
// ---------------------------------------------------------------------------

/// The values of the dimensions among the first `n` entries, in the order of their keys.
pub open spec fn dimension_values(context: Entries, n: nat) -> Seq<Seq<char>>
    decreases n,
{
    if n == 0 || n > context.len() {
        Seq::empty()
    } else {
        let earlier = dimension_values(context, (n - 1) as nat);
        let (key, value) = context[n - 1];
        if "dimension:"@.is_prefix_of(key) && value.len() > 0 {
            earlier.push(value)
        } else {
            earlier
        }
    }
}

/// The members that a context names: the one it keeps under a key of its own, or those of its
/// dimensions.
pub open spec fn members_of(context: Entries) -> Option<Seq<char>> {
    let own = match lookup(context, "entity_segment_explicitmember"@) {
        Some(m) => Some(m),
        None => lookup(context, "explicitmember"@),
    };
    let values = dimension_values(context, context.len());
    if own is Some && own->0.len() > 0 {
        own
    } else if values.len() == 0 {
        None
    } else {
        Some(join(values, ","@))
    }
}

pub open spec fn in_context(fact: FactModel, key: Seq<char>) -> Option<Seq<char>> {
    match fact.context {
        Some(c) => lookup(c, key),
        None => None,
    }
}

/// The taxonomy and the name of a fact that makes a record.
pub open spec fn record_name(fact: FactModel) -> Option<(Seq<char>, Seq<char>)> {
    match lookup(fact.attributes, "name"@) {
        None => None,
        Some(full) => match split_once(full, ':') {
            None => None,
            Some((taxonomy, name)) => if taxonomy.len() == 0 || name.len() == 0 {
                None
            } else {
                Some((taxonomy, name))
            },
        },
    }
}

/// The contexts that the records of the given facts refer to, in the order of their first use.
pub open spec fn used_contexts(facts: Seq<FactModel>) -> Seq<Seq<char>>
    decreases facts.len(),
{
    if facts.len() == 0 {
        Seq::empty()
    } else {
        let earlier = used_contexts(facts.drop_last());
        match (record_name(facts.last()), in_context(facts.last(), "_contextref"@)) {
            (Some(_), Some(r)) => if earlier.contains(r) {
                earlier
            } else {
                earlier.push(r)
            },
            _ => earlier,
        }
    }
}

/// No context is counted twice, so that two of them have different numbers.
pub proof fn law_context_numbers_differ(facts: Seq<FactModel>)
    ensures
        used_contexts(facts).no_duplicates(),
        used_contexts(facts).len() <= facts.len(),
    decreases facts.len(),
{
    if facts.len() > 0 {
        law_context_numbers_differ(facts.drop_last());
    }
}

/// A context keeps its number as further facts are taken in, and two contexts with the same
/// number are the same.
pub proof fn law_context_numbers_stay(facts: Seq<FactModel>, n: int, r: Seq<char>, s: Seq<char>)
    requires
        0 <= n <= facts.len(),
        used_contexts(facts.take(n)).contains(r),
        used_contexts(facts).contains(s),
    ensures
        used_contexts(facts).contains(r),
        used_contexts(facts).index_of(r) == used_contexts(facts.take(n)).index_of(r),
        used_contexts(facts).index_of(r) == used_contexts(facts).index_of(s) ==> r == s,
{
    lemma_used_contexts_grow(facts, n);
    law_context_numbers_differ(facts);
    law_context_numbers_differ(facts.take(n));
    let part = used_contexts(facts.take(n));
    let all = used_contexts(facts);
    let i = part.index_of(r);
    assert(0 <= i < part.len() && part[i] == r);
    assert(all.take(part.len() as int)[i] == all[i]);
    assert(all.contains(r));
    let j = all.index_of(r);
    assert(0 <= j < all.len() && all[j] == r);
    let k = all.index_of(s);
    assert(0 <= k < all.len() && all[k] == s);
}

proof fn lemma_used_contexts_grow(facts: Seq<FactModel>, n: int)
    requires
        0 <= n <= facts.len(),
    ensures
        used_contexts(facts.take(n)).len() <= used_contexts(facts).len(),
        used_contexts(facts).take(used_contexts(facts.take(n)).len() as int) == used_contexts(
            facts.take(n),
        ),
    decreases facts.len() - n,
{
    let part = used_contexts(facts.take(n));
    if n < facts.len() {
        lemma_used_contexts_grow(facts, n + 1);
        let next = used_contexts(facts.take(n + 1));
        let all = used_contexts(facts);
        assert(facts.take(n + 1).drop_last() =~= facts.take(n));
        assert(next.take(part.len() as int) =~= part);
        assert(all.take(part.len() as int) =~= all.take(next.len() as int).take(
            part.len() as int,
        ));
    } else {
        assert(facts.take(n) =~= facts);
        assert(part.take(part.len() as int) =~= part);
    }
}

/// A fact that an extracted document states names itself and its context.
pub open spec fn is_named(attributes: Entries) -> bool {
    lookup(attributes, "name"@) is Some && lookup(attributes, "contextRef"@) is Some
}

proof fn lemma_attributes_in_order(
    s: Seq<Result<AttributeModel, Seq<char>>>,
    i: int,
    acc: Entries,
)
    requires
        in_key_order(acc),
    ensures
        attributes_from(s, i, acc) matches Ok(m) ==> in_key_order(m),
    decreases s.len() - i,
{
    if i < s.len() {
        if let Ok(a) = s[i] {
            if let Ok(v) = a.value {
                law_put_keeps_order(acc, utf8_lossy(a.key), v);
                lemma_attributes_in_order(s, i + 1, put(acc, utf8_lossy(a.key), v));
            }
        }
    }
}

proof fn lemma_begun_fact_is_named(tag: TagModel)
    ensures
        begun_fact(tag, XbrlFileType::ExtractedInline) matches Ok(Some(f)) ==> is_named(
            f.attributes,
        ),
{
    lemma_attributes_in_order(tag.attributes, 0, Seq::empty());
    if let Ok(attributes) = attribute_map(tag) {
        if lookup(attributes, "contextRef"@) is Some && lookup(attributes, "name"@) is None {
            reveal_strlit("name");
            reveal_strlit("contextRef");
            assert("name"@ != "contextRef"@);
            law_put_then_lookup(attributes, "name"@, utf8_lossy(tag.name), "contextRef"@);
            law_put_then_lookup(attributes, "name"@, utf8_lossy(tag.name), "name"@);
        }
    }
}

proof fn lemma_facts_are_named(
    events: Seq<EventModel>,
    i: int,
    facts: Seq<FactModel>,
    current: Option<OpenFact>,
    contexts: Map<Seq<char>, Entries>,
)
    requires
        forall|k: int| 0 <= k < facts.len() ==> is_named((#[trigger] facts[k]).attributes),
        current matches Some(f) ==> is_named(f.attributes),
    ensures
        facts_from(events, i, facts, current, contexts, XbrlFileType::ExtractedInline) matches Ok(
            all,
        ) ==> forall|k: int| 0 <= k < all.len() ==> is_named((#[trigger] all[k]).attributes),
    decreases events.len() - i,
{
    let mode = XbrlFileType::ExtractedInline;
    if i < events.len() {
        match (events[i], current) {
            (EventModel::Start(_), Some(f)) => {
                let next = Some(OpenFact { depth: f.depth + 1, ..f });
                lemma_facts_are_named(events, i + 1, facts, next, contexts);
            },
            (EventModel::Start(t), None) => {
                lemma_begun_fact_is_named(t);
                if let Ok(begun) = begun_fact(t, mode) {
                    lemma_facts_are_named(events, i + 1, facts, begun, contexts);
                }
            },
            (EventModel::Empty(t), None) => {
                lemma_begun_fact_is_named(t);
                match begun_fact(t, mode) {
                    Ok(Some(f)) => {
                        let more = facts.push(ended_fact(f, contexts));
                        lemma_facts_are_named(events, i + 1, more, None, contexts);
                    },
                    _ => lemma_facts_are_named(events, i + 1, facts, None, contexts),
                }
            },
            (EventModel::Text(r), Some(f)) => {
                if let Ok(s) = r {
                    let next = Some(OpenFact { val: f.val + s, ..f });
                    lemma_facts_are_named(events, i + 1, facts, next, contexts);
                }
            },
            (EventModel::CData(b), Some(f)) => {
                let next = Some(OpenFact { val: f.val + utf8_lossy(b), ..f });
                lemma_facts_are_named(events, i + 1, facts, next, contexts);
            },
            (EventModel::End(_), Some(f)) => {
                if f.depth > 1 {
                    let next = Some(OpenFact { depth: (f.depth - 1) as nat, ..f });
                    lemma_facts_are_named(events, i + 1, facts, next, contexts);
                } else {
                    let more = facts.push(ended_fact(f, contexts));
                    lemma_facts_are_named(events, i + 1, more, None, contexts);
                }
            },
            _ => lemma_facts_are_named(events, i + 1, facts, current, contexts),
        }
    }
}

/// Every fact of an extracted document has a name and refers to a context.
pub proof fn law_extracted_facts_are_named(events: Seq<EventModel>)
    ensures
        document_facts(events, XbrlFileType::ExtractedInline) matches Ok(facts) ==> forall|k: int|
            0 <= k < facts.len() ==> is_named((#[trigger] facts[k]).attributes),
{
    if let Ok(contexts) = document_contexts(events) {
        lemma_facts_are_named(events, 0, Seq::empty(), None, contexts);
    }
}

/// Whether every context is kept under the identifier that it holds itself.
pub open spec fn is_keyed(contexts: Map<Seq<char>, Entries>) -> bool {
    forall|id: Seq<char>| #[trigger]
        contexts.contains_key(id) ==> lookup(contexts[id], "_contextref"@) == Some(id)
}

/// Whether a context that is still open holds its identifier, and takes no text in its place.
spec fn holds_identifier(c: OpenContext) -> bool {
    &&& in_key_order(c.data)
    &&& c.id matches Some(id) ==> lookup(c.data, "_contextref"@) == Some(id)
    &&& c.text_key matches Some(key) ==> key != "_contextref"@
}

/// No text is kept under the name of the identifier.
proof fn lemma_text_keys(tag: TagModel)
    ensures
        text_key_of(tag) matches Ok(Some(key)) ==> key != "_contextref"@,
        empty_key_of(tag) matches Ok(Some(key)) ==> key != "_contextref"@,
{
    reveal_strlit("_contextref");
    reveal_strlit("entity_identifier");
    reveal_strlit("period_instant");
    reveal_strlit("period_startdate");
    reveal_strlit("period_enddate");
    reveal_strlit("explicitmember");
    reveal_strlit("dimension:");
    assert("_contextref"@[0] == '_');
    assert("entity_identifier"@[0] == 'e' && "explicitmember"@[0] == 'e');
    assert("period_instant"@[0] == 'p' && "period_startdate"@[0] == 'p');
    assert("period_enddate"@[0] == 'p');
    assert forall|d: Seq<char>| #[trigger] ("dimension:"@ + d) != "_contextref"@ by {
        assert(("dimension:"@ + d)[0] == 'd');
    }
}

proof fn lemma_text_keeps_identifier(c: OpenContext, text: Seq<char>)
    requires
        holds_identifier(c),
    ensures
        holds_identifier(context_with_text(c, text)),
{
    if let Some(key) = c.text_key {
        let v = match lookup(c.data, key) {
            Some(v) => v + text,
            None => text,
        };
        law_put_keeps_order(c.data, key, v);
        law_put_then_lookup(c.data, key, v, "_contextref"@);
    }
}

proof fn lemma_begun_context(tag: TagModel)
    ensures
        attribute_map(tag) matches Ok(attributes) ==> holds_identifier(begun_context(attributes)),
{
    if let Ok(attributes) = attribute_map(tag) {
        if let Some(id) = begun_context(attributes).id {
            law_put_keeps_order(Seq::empty(), "_contextref"@, id);
            law_put_then_lookup(Seq::empty(), "_contextref"@, id, "_contextref"@);
        }
    }
}

proof fn lemma_contexts_are_keyed(
    events: Seq<EventModel>,
    i: int,
    contexts: Map<Seq<char>, Entries>,
    current: Option<OpenContext>,
)
    requires
        is_keyed(contexts),
        current matches Some(c) ==> holds_identifier(c),
    ensures
        contexts_from(events, i, contexts, current) matches Ok(all) ==> is_keyed(all),
    decreases events.len() - i,
{
    if i < events.len() {
        match (events[i], current) {
            (EventModel::Start(t), Some(c)) => {
                lemma_text_keys(t);
                if let Ok(text_key) = text_key_of(t) {
                    let next = Some(OpenContext { depth: c.depth + 1, text_key, ..c });
                    lemma_contexts_are_keyed(events, i + 1, contexts, next);
                }
            },
            (EventModel::Start(t), None) => {
                lemma_begun_context(t);
                if has_local_name(t.name, "context"@) {
                    if let Ok(attributes) = attribute_map(t) {
                        let next = Some(begun_context(attributes));
                        lemma_contexts_are_keyed(events, i + 1, contexts, next);
                    }
                } else {
                    lemma_contexts_are_keyed(events, i + 1, contexts, None);
                }
            },
            (EventModel::Empty(t), Some(c)) => {
                lemma_text_keys(t);
                match empty_key_of(t) {
                    Ok(Some(key)) => {
                        law_put_keeps_order(c.data, key, Seq::empty());
                        law_put_then_lookup(c.data, key, Seq::empty(), "_contextref"@);
                        let next = Some(OpenContext { data: put(c.data, key, Seq::empty()), ..c });
                        lemma_contexts_are_keyed(events, i + 1, contexts, next);
                    },
                    _ => lemma_contexts_are_keyed(events, i + 1, contexts, Some(c)),
                }
            },
            (EventModel::Text(r), Some(c)) => {
                let text = match r {
                    Ok(s) => s,
                    Err(_) => Seq::empty(),
                };
                lemma_text_keeps_identifier(c, text);
                let next = Some(context_with_text(c, text));
                lemma_contexts_are_keyed(events, i + 1, contexts, next);
            },
            (EventModel::CData(b), Some(c)) => {
                lemma_text_keeps_identifier(c, utf8_lossy(b));
                let next = Some(context_with_text(c, utf8_lossy(b)));
                lemma_contexts_are_keyed(events, i + 1, contexts, next);
            },
            (EventModel::End(n), Some(c)) => {
                if c.depth > 1 {
                    let next = OpenContext { text_key: None, depth: (c.depth - 1) as nat, ..c };
                    lemma_contexts_are_keyed(events, i + 1, contexts, Some(next));
                } else if has_local_name(n, "context"@) {
                    let more = match c.id {
                        Some(id) => contexts.insert(id, c.data),
                        None => contexts,
                    };
                    lemma_contexts_are_keyed(events, i + 1, more, None);
                } else {
                    let next = OpenContext { text_key: None, ..c };
                    lemma_contexts_are_keyed(events, i + 1, contexts, Some(next));
                }
            },
            _ => lemma_contexts_are_keyed(events, i + 1, contexts, current),
        }
    }
}

/// Whether a fact has a value that is trimmed and not empty, or none, and the context that its
/// attributes name.
pub open spec fn is_settled(fact: FactModel, contexts: Map<Seq<char>, Entries>) -> bool {
    &&& fact.val matches Some(v) ==> v.len() > 0 && trim(v) == v
    &&& fact.context == (match lookup(fact.attributes, "contextRef"@) {
        Some(r) => if contexts.contains_key(r) {
            Some(contexts[r])
        } else {
            None
        },
        None => None,
    })
}

proof fn lemma_facts_are_settled(
    events: Seq<EventModel>,
    i: int,
    facts: Seq<FactModel>,
    current: Option<OpenFact>,
    contexts: Map<Seq<char>, Entries>,
    file_type: XbrlFileType,
)
    requires
        forall|k: int| 0 <= k < facts.len() ==> is_settled(#[trigger] facts[k], contexts),
        current matches Some(f) ==> f.context_ref == lookup(f.attributes, "contextRef"@),
    ensures
        facts_from(events, i, facts, current, contexts, file_type) matches Ok(all) ==> forall|
            k: int,
        |
            0 <= k < all.len() ==> is_settled(#[trigger] all[k], contexts),
    decreases events.len() - i,
{
    if i < events.len() {
        match (events[i], current) {
            (EventModel::Start(_), Some(f)) => {
                let next = Some(OpenFact { depth: f.depth + 1, ..f });
                lemma_facts_are_settled(events, i + 1, facts, next, contexts, file_type);
            },
            (EventModel::Start(t), None) => {
                if let Ok(begun) = begun_fact(t, file_type) {
                    lemma_facts_are_settled(events, i + 1, facts, begun, contexts, file_type);
                }
            },
            (EventModel::Empty(t), None) => {
                match begun_fact(t, file_type) {
                    Ok(Some(f)) => {
                        law_trim_once(f.val);
                        let more = facts.push(ended_fact(f, contexts));
                        lemma_facts_are_settled(events, i + 1, more, None, contexts, file_type);
                    },
                    _ => lemma_facts_are_settled(events, i + 1, facts, None, contexts, file_type),
                }
            },
            (EventModel::Text(r), Some(f)) => {
                if let Ok(s) = r {
                    let next = Some(OpenFact { val: f.val + s, ..f });
                    lemma_facts_are_settled(events, i + 1, facts, next, contexts, file_type);
                }
            },
            (EventModel::CData(b), Some(f)) => {
                let next = Some(OpenFact { val: f.val + utf8_lossy(b), ..f });
                lemma_facts_are_settled(events, i + 1, facts, next, contexts, file_type);
            },
            (EventModel::End(_), Some(f)) => {
                if f.depth > 1 {
                    let next = Some(OpenFact { depth: (f.depth - 1) as nat, ..f });
                    lemma_facts_are_settled(events, i + 1, facts, next, contexts, file_type);
                } else {
                    law_trim_once(f.val);
                    let more = facts.push(ended_fact(f, contexts));
                    lemma_facts_are_settled(events, i + 1, more, None, contexts, file_type);
                }
            },
            _ => lemma_facts_are_settled(events, i + 1, facts, current, contexts, file_type),
        }
    }
}

/// Every fact of a document has a value that is trimmed and not empty, or none. Its context is the
/// one of the document that its `contextRef` names, where there is such a one, and that context
/// holds the same identifier.
pub proof fn law_facts_are_settled(events: Seq<EventModel>, file_type: XbrlFileType)
    ensures
        document_facts(events, file_type) matches Ok(facts) ==> document_contexts(events) is Ok
            && forall|k: int|
            0 <= k < facts.len() ==> {
                &&& is_settled(#[trigger] facts[k], document_contexts(events)->Ok_0)
                &&& facts[k].context matches Some(c) ==> lookup(c, "_contextref"@) is Some
                    && lookup(c, "_contextref"@) == lookup(facts[k].attributes, "contextRef"@)
            },
{
    if let Ok(contexts) = document_contexts(events) {
        lemma_contexts_are_keyed(events, 0, Map::empty(), None);
        lemma_facts_are_settled(events, 0, Seq::empty(), None, contexts, file_type);
    }
}

pub struct RecordModel {
    pub accession_number: u64,
    pub context_id: Option<int>,
    pub taxonomy: Seq<char>,
    pub name: Seq<char>,
    pub value: Option<Seq<char>>,
    pub period_start_date: Option<Seq<char>>,
    pub period_end_date: Option<Seq<char>>,
    pub members: Option<Seq<char>>,
}

pub open spec fn opt_id(id: Option<u64>) -> Option<int> {
    match id {
        Some(n) => Some(n as int),
        None => None,
    }
}

impl View for SimpleXbrlRecord {
    type V = RecordModel;

    open spec fn view(&self) -> RecordModel {
        RecordModel {
            accession_number: self.accession_number,
            context_id: opt_id(self.context_id),
            taxonomy: self.taxonomy@,
            name: self.name@,
            value: opt_text(self.value),
            period_start_date: opt_text(self.period_start_date),
            period_end_date: opt_text(self.period_end_date),
            members: opt_text(self.members),
        }
    }
}

pub open spec fn record_models(records: Seq<SimpleXbrlRecord>) -> Seq<RecordModel> {
    records.map_values(|r: SimpleXbrlRecord| r@)
}

/// The record of a fact, with its context numbered by its place in `contexts`.
pub open spec fn record_of(
    accession_number: u64,
    fact: FactModel,
    taxonomy: Seq<char>,
    name: Seq<char>,
    contexts: Seq<Seq<char>>,
) -> RecordModel {
    RecordModel {
        accession_number,
        context_id: match in_context(fact, "_contextref"@) {
            Some(r) => Some(contexts.index_of(r)),
            None => None,
        },
        taxonomy,
        name,
        value: scaled(fact.val, lookup(fact.attributes, "scale"@)),
        period_start_date: match in_context(fact, "period_instant"@) {
            Some(d) => Some(d),
            None => in_context(fact, "period_startdate"@),
        },
        period_end_date: in_context(fact, "period_enddate"@),
        members: match fact.context {
            Some(c) => members_of(c),
            None => None,
        },
    }
}

/// The records of the given facts: one for each fact with a full name.
pub open spec fn simple_records(accession_number: u64, facts: Seq<FactModel>) -> Seq<RecordModel>
    decreases facts.len(),
{
    if facts.len() == 0 {
        Seq::empty()
    } else {
        let earlier = simple_records(accession_number, facts.drop_last());
        match record_name(facts.last()) {
            Some((taxonomy, name)) => earlier.push(
                record_of(accession_number, facts.last(), taxonomy, name, used_contexts(facts)),
            ),
            None => earlier,
        }
    }
}

/// The members that a context names.
pub fn context_members(context: &XbrlMap) -> (out: Option<String>)
    ensures
        opt_text(out) == members_of(context@),
{
    let own = match context.get("entity_segment_explicitmember") {
        Some(m) => Some(m),
        None => context.get("explicitmember"),
    };
    match own {
        Some(m) => if !m.as_str().is_empty() {
            return Some(m.clone());
        },
        None => {},
    }
    let entries = context.entries();
    let prefix = chars_of("dimension:");
    let mut values: Vec<String> = Vec::new();
    assert(texts(values@) =~= Seq::empty());
    let mut i: usize = 0;
    while i < entries.len()
        invariant
            i <= entries@.len(),
            crate::ordered_map::pair_texts(entries@) == context@,
            prefix@ == "dimension:"@,
            texts(values@) == dimension_values(context@, i as nat),
        decreases entries@.len() - i,
    {
        assert(context@[i as int] == (entries@[i as int].0@, entries@[i as int].1@));
        let ghost earlier = values@;
        let is_dimension = has_prefix(&chars_of(entries[i].0.as_str()), &prefix);
        if is_dimension && !entries[i].1.as_str().is_empty() {
            values.push(entries[i].1.clone());
            assert(texts(values@) =~= texts(earlier).push(entries@[i as int].1@));
        }
        i += 1;
    }
    if values.len() == 0 {
        None
    } else {
        Some(join_strings(&values, ","))
    }
}

fn get_in_context(context: &Option<XbrlMap>, key: &str) -> (out: Option<String>)
    ensures
        opt_text(out) == (match opt_entries(*context) {
            Some(c) => lookup(c, key@),
            None => None,
        }),
{
    match context {
        Some(c) => get_owned(c, key),
        None => None,
    }
}

fn split_record_name(attributes: &XbrlMap) -> (out: Option<(String, String)>)
    ensures
        match out {
            Some((t, n)) => match lookup(attributes@, "name"@) {
                Some(full) => split_once(full, ':') == Some((t@, n@)) && t@.len() > 0 && n@.len()
                    > 0,
                None => false,
            },
            None => match lookup(attributes@, "name"@) {
                Some(full) => match split_once(full, ':') {
                    Some((t, n)) => t.len() == 0 || n.len() == 0,
                    None => true,
                },
                None => true,
            },
        },
{
    match attributes.get("name") {
        None => None,
        Some(full) => match cut_once(&chars_of(full.as_str()), ':') {
            None => None,
            Some((taxonomy, name)) => if taxonomy.len() == 0 || name.len() == 0 {
                None
            } else {
                Some((string_of(taxonomy), string_of(name)))
            },
        },
    }
}

/// One record for each fact with a full name; the contexts are numbered in the order of their
/// first use.
pub fn construct_simple_xbrl(accession_number: u64, facts: &[XbrlFact]) -> (records: Vec<
    SimpleXbrlRecord,
>)
    ensures
        record_models(records@) == simple_records(accession_number, fact_models(facts@)),
{
    let ghost models = fact_models(facts@);
    let mut records: Vec<SimpleXbrlRecord> = Vec::new();
    let mut numbers: StringHashMap<u64> = StringHashMap::new();
    let mut next_context_id: u64 = 0;
    assert(record_models(records@) =~= Seq::empty());
    let mut i: usize = 0;
    while i < facts.len()
        invariant
            i <= facts@.len(),
            models == fact_models(facts@),
            record_models(records@) == simple_records(accession_number, models.take(i as int)),
            next_context_id == used_contexts(models.take(i as int)).len(),
            next_context_id <= i,
            forall|r: Seq<char>|
                #[trigger] numbers@.contains_key(r) <==> used_contexts(
                    models.take(i as int),
                ).contains(r),
            forall|r: Seq<char>| #[trigger]
                numbers@.contains_key(r) ==> numbers@[r] == used_contexts(
                    models.take(i as int),
                ).index_of(r),
        decreases facts@.len() - i,
    {
        let ghost earlier = records@;
        let ghost before = used_contexts(models.take(i as int));
        let ghost after = used_contexts(models.take(i + 1));
        let fact = &facts[i];
        proof {
            assert(models.take(i + 1).drop_last() =~= models.take(i as int));
            assert(models.take(i + 1).last() == fact@);
            law_context_numbers_differ(models.take(i as int));
            law_context_numbers_differ(models.take(i + 1));
        }
        match split_record_name(&fact.attributes) {
            None => {},
            Some((taxonomy, name)) => {
                let context_ref = get_in_context(&fact.context, "_contextref");
                let context_id = match context_ref {
                    None => None,
                    Some(r) => match numbers.get(r.as_str()) {
                        Some(n) => Some(*n),
                        None => {
                            let ghost key = r@;
                            let id = next_context_id;
                            numbers.insert(r, id);
                            next_context_id = next_context_id + 1;
                            proof {
                                assert(after == before.push(key));
                                assert(after[before.len() as int] == key);
                                lemma_index_of(after, before.len() as int);
                                assert forall|r: Seq<char>| #[trigger]
                                    numbers@.contains_key(r) <==> after.contains(r) by {
                                    if before.contains(r) {
                                        let j = before.index_of(r);
                                        assert(after[j] == r);
                                    }
                                }
                                assert forall|r: Seq<char>| #[trigger]
                                    numbers@.contains_key(r) implies numbers@[r] == after.index_of(
                                    r,
                                ) by {
                                    if r != key {
                                        assert(before.contains(r));
                                        let j = before.index_of(r);
                                        assert(after[j] == r);
                                        lemma_index_of(after, j);
                                    }
                                }
                            }
                            Some(id)
                        },
                    },
                };
                let val = match &fact.val {
                    Some(v) => Some(v.as_str()),
                    None => None,
                };
                let value = scaled_value(val, fact.attributes.get("scale"));
                let period_start_date = match get_in_context(&fact.context, "period_instant") {
                    Some(d) => Some(d),
                    None => get_in_context(&fact.context, "period_startdate"),
                };
                let period_end_date = get_in_context(&fact.context, "period_enddate");
                let members = match &fact.context {
                    Some(c) => context_members(c),
                    None => None,
                };
                records.push(
                    SimpleXbrlRecord {
                        accession_number,
                        context_id,
                        taxonomy,
                        name,
                        value,
                        period_start_date,
                        period_end_date,
                        members,
                    },
                );
                proof {
                    let made = records@.last()@;
                    assert(record_models(records@) =~= record_models(earlier).push(made));
                    assert(made =~= record_of(
                        accession_number,
                        fact@,
                        taxonomy@,
                        name@,
                        after,
                    ));
                }
            },
        }
        i += 1;
    }
    assert(models.take(i as int) =~= models);
    records
}

proof fn lemma_index_of(s: Seq<Seq<char>>, i: int)
    requires
        s.no_duplicates(),
        0 <= i < s.len(),
    ensures
        s.index_of(s[i]) == i,
{
    assert(s.contains(s[i]));
    let j = s.index_of(s[i]);
    assert(0 <= j < s.len() && s[j] == s[i]);
}

} // verus!
