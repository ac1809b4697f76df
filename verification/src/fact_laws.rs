//! What the facts of a document say, told from its events.
use vstd::prelude::*;
use vstd::utf8::encode_utf8;

use crate::encoding::utf8_lossy;
use crate::ordered_map::{
    in_key_order, law_put_keeps_order, law_put_then_lookup, lookup, put, Entries,
};
use crate::record_laws::{is_entry, law_lookup_finds_entry, lemma_entry_is_one};
use crate::text_laws::{is_trimmed_value, law_trim};
use crate::xbrl::{
    attribute_map, attributes_from, begun_context, begun_fact, context_with_text, contexts_from,
    document_contexts, document_facts, empty_key_of, ended_fact, facts_from, text_key_of, FactModel,
    OpenContext, OpenFact, XbrlFileType,
};
use crate::xml::{has_local_name, lemma_colon_index, local_part, lower_bytes, EventModel, TagModel};

verus! {

// ---------------------------------------------------------------------------
// Attributes
// ---------------------------------------------------------------------------

/// Whether the `i`-th attribute of a tag has the given name.
pub open spec fn names_attribute(tag: TagModel, i: int, key: Seq<char>) -> bool {
    tag.attributes[i] matches Ok(a) && utf8_lossy(a.key) == key
}

/// Whether the `i`-th attribute of a tag has the given name and value.
pub open spec fn gives_attribute(tag: TagModel, i: int, key: Seq<char>, v: Seq<char>) -> bool {
    tag.attributes[i] matches Ok(a) && utf8_lossy(a.key) == key && (a.value matches Ok(t) && t
        == v)
}

/// Whether none of the attributes from behind the `i`-th to before the `n`-th has the given name.
pub open spec fn is_last_named(tag: TagModel, i: int, n: int, key: Seq<char>) -> bool {
    forall|j: int| i < j < n ==> !#[trigger] names_attribute(tag, j, key)
}

/// Whether the last of the first `n` attributes with the given name has the given value; none has
/// the name where the value is missing.
pub open spec fn is_attribute_of(
    v: Option<Seq<char>>,
    tag: TagModel,
    n: int,
    key: Seq<char>,
) -> bool {
    match v {
        Some(t) => exists|i: int|
            0 <= i < n && #[trigger] gives_attribute(tag, i, key, t) && is_last_named(
                tag,
                i,
                n,
                key,
            ),
        None => forall|i: int| 0 <= i < n ==> !#[trigger] names_attribute(tag, i, key),
    }
}

/// Whether a tag has the given value under the given name, or none.
pub open spec fn is_attribute(v: Option<Seq<char>>, tag: TagModel, key: Seq<char>) -> bool {
    is_attribute_of(v, tag, tag.attributes.len() as int, key)
}

proof fn lemma_given(tag: TagModel, i: int, key: Seq<char>, v: Seq<char>)
    requires
        0 <= i,
        gives_attribute(tag, i, key, v),
    ensures
        is_attribute_of(Some(v), tag, i + 1, key),
{
    assert(is_last_named(tag, i, i + 1, key));
    let given = Some(v);
    assert(gives_attribute(tag, i, key, given->0));
}

proof fn lemma_attributes(tag: TagModel, i: int, acc: Entries)
    requires
        0 <= i <= tag.attributes.len(),
        in_key_order(acc),
        forall|key: Seq<char>| #[trigger] is_attribute_of(lookup(acc, key), tag, i, key),
    ensures
        attributes_from(tag.attributes, i, acc) matches Ok(all) ==> in_key_order(all) && forall|
            key: Seq<char>,
        |
            #[trigger] is_attribute(lookup(all, key), tag, key),
    decreases tag.attributes.len() - i,
{
    if i < tag.attributes.len() {
        if let Ok(a) = tag.attributes[i] {
            if let Ok(v) = a.value {
                let name = utf8_lossy(a.key);
                let next = put(acc, name, v);
                law_put_keeps_order(acc, name, v);
                assert forall|key: Seq<char>| #[trigger] is_attribute_of(
                    lookup(next, key),
                    tag,
                    i + 1,
                    key,
                ) by {
                    law_put_then_lookup(acc, name, v, key);
                    assert(is_attribute_of(lookup(acc, key), tag, i, key));
                    if key == name {
                        assert(gives_attribute(tag, i, key, v));
                        lemma_given(tag, i, key, v);
                        assert(is_attribute_of(Some(v), tag, i + 1, key));
                    } else if let Some(t) = lookup(acc, key) {
                        let k = choose|k: int|
                            0 <= k < i && #[trigger] gives_attribute(tag, k, key, t)
                                && is_last_named(tag, k, i, key);
                        assert(!names_attribute(tag, i, key));
                        assert(gives_attribute(tag, k, key, t));
                        assert(is_attribute_of(Some(t), tag, i + 1, key));
                    } else {
                        assert(!names_attribute(tag, i, key));
                        assert(is_attribute_of(None, tag, i + 1, key));
                    }
                }
                lemma_attributes(tag, i + 1, next);
            }
        }
    } else {
        assert forall|key: Seq<char>| #[trigger] is_attribute(lookup(acc, key), tag, key) by {
            assert(is_attribute_of(lookup(acc, key), tag, i, key));
        }
    }
}

/// Under each name stands the value of the last attribute with that name, and under no other name
/// anything.
pub proof fn law_last_attribute_counts(tag: TagModel)
    ensures
        attribute_map(tag) matches Ok(all) ==> in_key_order(all) && forall|
            key: Seq<char>,
            v: Option<Seq<char>>,
        |
            #[trigger] is_entry(v, all, key) ==> is_attribute(v, tag, key),
{
    assert forall|key: Seq<char>| #[trigger] is_attribute_of(
        lookup(Seq::empty(), key),
        tag,
        0,
        key,
    ) by {}
    lemma_attributes(tag, 0, Seq::empty());
    if let Ok(all) = attribute_map(tag) {
        assert forall|key: Seq<char>, v: Option<Seq<char>>| #[trigger]
            is_entry(v, all, key) implies is_attribute(v, tag, key) by {
            law_lookup_finds_entry(all, key);
            lemma_entry_is_one(all, key, v, lookup(all, key));
            assert(is_attribute(lookup(all, key), tag, key));
        }
    }
}

// ---------------------------------------------------------------------------
// Facts
// ---------------------------------------------------------------------------

/// How many more elements begin than end among the events from the `i`-th to before the `j`-th.
pub open spec fn nesting(events: Seq<EventModel>, i: int, j: int) -> int
    decreases j - i,
{
    if j <= i {
        0
    } else {
        nesting(events, i, j - 1) + (match events[j - 1] {
            EventModel::Start(_) => 1int,
            EventModel::End(_) => -1int,
            _ => 0int,
        })
    }
}

/// Whether the element that begins at `i` is not ended before the `j`-th event.
pub open spec fn is_unended(events: Seq<EventModel>, i: int, j: int) -> bool {
    &&& events[i] is Start
    &&& forall|k: int| i < k <= j ==> #[trigger] nesting(events, i + 1, k) >= 0
}

/// Whether the tag at `j` ends the element that begins at `i`.
pub open spec fn is_ended_by(events: Seq<EventModel>, i: int, j: int) -> bool {
    &&& 0 <= i < j < events.len()
    &&& is_unended(events, i, j)
    &&& nesting(events, i + 1, j) == 0
    &&& events[j] is End
}

/// The text of an event: what a text or a CDATA section holds.
pub open spec fn event_text(e: EventModel) -> Seq<char> {
    match e {
        EventModel::Text(Ok(s)) => s,
        EventModel::CData(b) => utf8_lossy(b),
        _ => Seq::empty(),
    }
}

/// All texts from the `i`-th event to before the `j`-th, one behind the other.
pub open spec fn texts_between(events: Seq<EventModel>, i: int, j: int) -> Seq<char> {
    events.subrange(i, j).map_values(|e: EventModel| event_text(e)).flatten()
}

/// Whether a tag begins a fact: in a page its local name says so, in an extracted document its
/// reference to a context.
pub open spec fn is_fact_tag(tag: TagModel, file_type: XbrlFileType) -> bool {
    match file_type {
        XbrlFileType::Inline => has_local_name(tag.name, "nonfraction"@) || has_local_name(
            tag.name,
            "nonnumeric"@,
        ),
        XbrlFileType::ExtractedInline => !is_attribute(None, tag, "contextRef"@),
    }
}

/// Whether the given attributes are those of a tag; a fact of an extracted document that has no
/// name bears that of its tag.
pub open spec fn are_fact_attributes(
    attributes: Entries,
    tag: TagModel,
    file_type: XbrlFileType,
) -> bool {
    &&& in_key_order(attributes)
    &&& forall|key: Seq<char>, v: Option<Seq<char>>| #[trigger]
        is_entry(v, attributes, key) ==> if file_type == XbrlFileType::ExtractedInline && key
            == "name"@ && is_attribute(None, tag, "name"@) {
            v == Some(utf8_lossy(tag.name))
        } else {
            is_attribute(v, tag, key)
        }
}

/// Whether a context is the one that the attributes of a fact refer to.
pub open spec fn is_fact_context(
    context: Option<Entries>,
    attributes: Entries,
    contexts: Map<Seq<char>, Entries>,
) -> bool {
    exists|r: Option<Seq<char>>|
        #[trigger] is_entry(r, attributes, "contextRef"@) && context == (match r {
            Some(id) => if contexts.contains_key(id) {
                Some(contexts[id])
            } else {
                None
            },
            None => None,
        })
}

/// Whether no attribute of a tag is malformed.
pub open spec fn is_read_tag(tag: TagModel) -> bool {
    forall|i: int|
        0 <= i < tag.attributes.len() ==> (#[trigger] tag.attributes[i] matches Ok(a) && a.value
            is Ok)
}

/// Whether an event is no text that cannot be read.
pub open spec fn is_read_text(e: EventModel) -> bool {
    !(e matches EventModel::Text(Err(_)))
}

/// Whether a fact says what the element from the `i`-th to the `j`-th event says. Its value is made
/// of all the texts between its tags, without the white space at its ends; it has none where there
/// is nothing but white space. An empty element has no value.
pub open spec fn is_fact_at(
    fact: FactModel,
    events: Seq<EventModel>,
    i: int,
    j: int,
    contexts: Map<Seq<char>, Entries>,
    file_type: XbrlFileType,
) -> bool {
    &&& 0 <= i <= j < events.len()
    &&& is_fact_context(fact.context, fact.attributes, contexts)
    &&& match events[i] {
        EventModel::Start(tag) => {
            &&& is_fact_tag(tag, file_type)
            &&& is_read_tag(tag)
            &&& are_fact_attributes(fact.attributes, tag, file_type)
            &&& is_ended_by(events, i, j)
            &&& forall|q: int| i < q < j ==> is_read_text(#[trigger] events[q])
            &&& is_trimmed_value(fact.val, texts_between(events, i + 1, j))
        },
        EventModel::Empty(tag) => {
            &&& is_fact_tag(tag, file_type)
            &&& is_read_tag(tag)
            &&& are_fact_attributes(fact.attributes, tag, file_type)
            &&& i == j
            &&& fact.val is None
        },
        _ => false,
    }
}

/// Whether a fact begins with the given event.
pub open spec fn begins_fact(e: EventModel, file_type: XbrlFileType) -> bool {
    match e {
        EventModel::Start(tag) => is_fact_tag(tag, file_type),
        EventModel::Empty(tag) => is_fact_tag(tag, file_type),
        _ => false,
    }
}

/// Whether the given event stands in one of the given elements.
pub open spec fn stands_within(at: Seq<(int, int)>, p: int) -> bool {
    exists|k: int| 0 <= k < at.len() && (#[trigger] at[k]).0 <= p <= at[k].1
}

/// Whether the given elements follow each other.
pub open spec fn follow_each_other(at: Seq<(int, int)>) -> bool {
    forall|k: int, l: int|
        0 <= k < l < at.len() ==> (#[trigger] at[k]).1 < (#[trigger] at[l]).0
}

/// Whether the facts are those of the elements at `at` and no fact begins elsewhere before the
/// `n`-th event, but inside a fact that is not ended there.
pub open spec fn are_facts_at(
    facts: Seq<FactModel>,
    at: Seq<(int, int)>,
    events: Seq<EventModel>,
    n: int,
    contexts: Map<Seq<char>, Entries>,
    file_type: XbrlFileType,
) -> bool {
    &&& facts.len() == at.len()
    &&& follow_each_other(at)
    &&& forall|k: int|
        0 <= k < at.len() ==> (#[trigger] at[k]).1 < n && is_fact_at(
            facts[k],
            events,
            at[k].0,
            at[k].1,
            contexts,
            file_type,
        )
    &&& forall|p: int|
        0 <= p < n && begins_fact(#[trigger] events[p], file_type) ==> stands_within(at, p)
            || exists|q: int|
            0 <= q <= p && begins_fact(#[trigger] events[q], file_type) && is_unended(events, q, n)
}

/// Where a document ends, if nothing before is malformed: at the first event that says so, or
/// behind the last.
pub open spec fn is_document_end(events: Seq<EventModel>, n: int) -> bool {
    &&& 0 <= n <= events.len()
    &&& forall|k: int| 0 <= k < n ==> !(#[trigger] events[k] is Eof) && !(events[k] is Failed)
    &&& n < events.len() ==> events[n] is Eof
}

proof fn lemma_read_tag(tag: TagModel, i: int, acc: Entries)
    requires
        0 <= i <= tag.attributes.len(),
    ensures
        attributes_from(tag.attributes, i, acc) is Ok <==> forall|k: int|
            i <= k < tag.attributes.len() ==> (#[trigger] tag.attributes[k] matches Ok(a) && a.value
                is Ok),
    decreases tag.attributes.len() - i,
{
    if i < tag.attributes.len() {
        if let Ok(a) = tag.attributes[i] {
            if let Ok(v) = a.value {
                lemma_read_tag(tag, i + 1, put(acc, utf8_lossy(a.key), v));
                if attributes_from(tag.attributes, i, acc) is Ok {
                    assert forall|k: int| i <= k < tag.attributes.len() implies (
                    #[trigger] tag.attributes[k] matches Ok(a) && a.value is Ok) by {
                        if k == i {
                            assert(tag.attributes[i] matches Ok(a) && a.value is Ok);
                        }
                    }
                }
            }
        }
    }
}

/// The attributes of a tag can be read if and only if none of them is malformed.
pub proof fn law_read_tags_have_attributes(tag: TagModel)
    ensures
        attribute_map(tag) is Ok <==> is_read_tag(tag),
{
    lemma_read_tag(tag, 0, Seq::empty());
}

proof fn lemma_begun(tag: TagModel, file_type: XbrlFileType)
    ensures
        match begun_fact(tag, file_type) {
            Ok(Some(f)) => {
                &&& is_fact_tag(tag, file_type)
                &&& is_read_tag(tag)
                &&& are_fact_attributes(f.attributes, tag, file_type)
                &&& is_entry(f.context_ref, f.attributes, "contextRef"@)
                &&& f.val.len() == 0
                &&& f.depth == 1
            },
            Ok(None) => !is_fact_tag(tag, file_type),
            Err(_) => true,
        },
{
    law_last_attribute_counts(tag);
    lemma_read_tag(tag, 0, Seq::empty());
    if let Ok(all) = attribute_map(tag) {
        law_lookup_finds_entry(all, "contextRef"@);
        law_lookup_finds_entry(all, "name"@);
        assert(is_entry(lookup(all, "contextRef"@), all, "contextRef"@));
        assert(is_entry(lookup(all, "name"@), all, "name"@));
        if let Some(r) = lookup(all, "contextRef"@) {
            assert(is_attribute(Some(r), tag, "contextRef"@));
            let i = choose|i: int|
                0 <= i < tag.attributes.len() && #[trigger] gives_attribute(
                    tag,
                    i,
                    "contextRef"@,
                    r,
                );
            assert(names_attribute(tag, i, "contextRef"@));
        }
        if let Some(n) = lookup(all, "name"@) {
            assert(is_attribute(Some(n), tag, "name"@));
            let i = choose|i: int|
                0 <= i < tag.attributes.len() && #[trigger] gives_attribute(tag, i, "name"@, n);
            assert(names_attribute(tag, i, "name"@));
        }
        if let Ok(Some(f)) = begun_fact(tag, file_type) {
            law_lookup_finds_entry(f.attributes, "contextRef"@);
            let name = utf8_lossy(tag.name);
            law_put_keeps_order(all, "name"@, name);
            assert forall|key: Seq<char>, v: Option<Seq<char>>| #[trigger]
                is_entry(v, f.attributes, key) implies if file_type
                == XbrlFileType::ExtractedInline && key == "name"@ && is_attribute(
                None,
                tag,
                "name"@,
            ) {
                v == Some(utf8_lossy(tag.name))
            } else {
                is_attribute(v, tag, key)
            } by {
                law_lookup_finds_entry(f.attributes, key);
                lemma_entry_is_one(f.attributes, key, v, lookup(f.attributes, key));
                law_put_then_lookup(all, "name"@, name, key);
                law_lookup_finds_entry(all, key);
                assert(is_entry(lookup(all, key), all, key));
            }
        }
    }
}

proof fn lemma_more_text(events: Seq<EventModel>, i: int, j: int)
    requires
        0 <= i <= j < events.len(),
    ensures
        texts_between(events, i, j + 1) == texts_between(events, i, j) + event_text(events[j]),
{
    let part = events.subrange(i, j).map_values(|e: EventModel| event_text(e));
    let more = events.subrange(i, j + 1).map_values(|e: EventModel| event_text(e));
    assert(more =~= part.push(event_text(events[j])));
    part.lemma_flatten_push(event_text(events[j]));
}

/// What is known of a fact begun at `s` when the `i`-th event comes.
spec fn is_open(
    f: OpenFact,
    events: Seq<EventModel>,
    s: int,
    i: int,
    file_type: XbrlFileType,
) -> bool {
    &&& 0 <= s < i <= events.len()
    &&& events[s] matches EventModel::Start(tag) && is_fact_tag(tag, file_type) && is_read_tag(tag)
        && are_fact_attributes(f.attributes, tag, file_type)
    &&& forall|q: int| s < q < i ==> is_read_text(#[trigger] events[q])
    &&& is_entry(f.context_ref, f.attributes, "contextRef"@)
    &&& is_unended(events, s, i)
    &&& f.val == texts_between(events, s + 1, i)
    &&& f.depth == 1 + nesting(events, s + 1, i)
}

/// What is known of the facts found before the `i`-th event.
spec fn found(
    facts: Seq<FactModel>,
    at: Seq<(int, int)>,
    current: Option<OpenFact>,
    s: int,
    events: Seq<EventModel>,
    i: int,
    contexts: Map<Seq<char>, Entries>,
    file_type: XbrlFileType,
) -> bool {
    &&& 0 <= i <= events.len()
    &&& facts.len() == at.len()
    &&& follow_each_other(at)
    &&& forall|k: int|
        0 <= k < at.len() ==> (#[trigger] at[k]).1 < i && is_fact_at(
            facts[k],
            events,
            at[k].0,
            at[k].1,
            contexts,
            file_type,
        )
    &&& current matches Some(f) ==> is_open(f, events, s, i, file_type) && forall|k: int|
        0 <= k < at.len() ==> (#[trigger] at[k]).1 < s
    &&& forall|p: int|
        0 <= p < i && begins_fact(#[trigger] events[p], file_type) ==> stands_within(at, p) || (
        current is Some && s <= p)
    &&& forall|k: int| 0 <= k < i ==> !(#[trigger] events[k] is Eof) && !(events[k] is Failed)
}

proof fn lemma_within_more(at: Seq<(int, int)>, last: (int, int), p: int)
    ensures
        stands_within(at, p) || last.0 <= p <= last.1 ==> stands_within(at.push(last), p),
{
    let more = at.push(last);
    assert(more[at.len() as int] == last);
    if stands_within(at, p) {
        let k = choose|k: int| 0 <= k < at.len() && (#[trigger] at[k]).0 <= p <= at[k].1;
        assert(more[k] == at[k]);
    }
}

proof fn lemma_more_facts(
    facts: Seq<FactModel>,
    at: Seq<(int, int)>,
    fact: FactModel,
    last: (int, int),
    current: Option<OpenFact>,
    s: int,
    events: Seq<EventModel>,
    i: int,
    contexts: Map<Seq<char>, Entries>,
    file_type: XbrlFileType,
)
    requires
        found(facts, at, current, s, events, i, contexts, file_type),
        i < events.len(),
        !(events[i] is Eof),
        !(events[i] is Failed),
        last.1 == i,
        current is Some ==> last.0 == s,
        current is None ==> last.0 == i,
        is_fact_at(fact, events, last.0, last.1, contexts, file_type),
    ensures
        found(facts.push(fact), at.push(last), None, s, events, i + 1, contexts, file_type),
{
    let more = at.push(last);
    assert forall|k: int, l: int| 0 <= k < l < more.len() implies (#[trigger] more[k]).1 < (
    #[trigger] more[l]).0 by {
        assert(more[k] == at[k]);
        if l < at.len() {
            assert(more[l] == at[l]);
        }
    }
    assert forall|k: int| 0 <= k < more.len() implies (#[trigger] more[k]).1 < i + 1 && is_fact_at(
        facts.push(fact)[k],
        events,
        more[k].0,
        more[k].1,
        contexts,
        file_type,
    ) by {
        if k < at.len() {
            assert(more[k] == at[k]);
        }
    }
    assert forall|p: int| 0 <= p < i + 1 && begins_fact(
        #[trigger] events[p],
        file_type,
    ) implies stands_within(more, p) by {
        lemma_within_more(at, last, p);
    }
}

#[verifier::rlimit(40)]
proof fn lemma_facts(
    facts: Seq<FactModel>,
    at: Seq<(int, int)>,
    current: Option<OpenFact>,
    s: int,
    events: Seq<EventModel>,
    i: int,
    contexts: Map<Seq<char>, Entries>,
    file_type: XbrlFileType,
) -> (r: (Seq<(int, int)>, int))
    requires
        found(facts, at, current, s, events, i, contexts, file_type),
    ensures
        facts_from(events, i, facts, current, contexts, file_type) matches Ok(all) ==> {
            let (ends, n) = r;
            is_document_end(events, n) && are_facts_at(all, ends, events, n, contexts, file_type)
        },
    decreases events.len() - i,
{
    if i >= events.len() || events[i] is Eof {
        assert forall|p: int| 0 <= p < i && begins_fact(
            #[trigger] events[p],
            file_type,
        ) implies stands_within(at, p) || exists|q: int|
            0 <= q <= p && begins_fact(#[trigger] events[q], file_type) && is_unended(
                events,
                q,
                i,
            ) by {
            if !stands_within(at, p) {
                assert(begins_fact(events[s], file_type));
            }
        }
        (at, i)
    } else {
        match (events[i], current) {
            (EventModel::Start(_), Some(f)) => {
                lemma_more_text(events, s + 1, i);
                assert(f.val + Seq::<char>::empty() =~= f.val);
                let next = OpenFact { depth: f.depth + 1, ..f };
                assert(is_open(next, events, s, i + 1, file_type));
                lemma_facts(facts, at, Some(next), s, events, i + 1, contexts, file_type)
            },
            (EventModel::Start(t), None) => {
                lemma_begun(t, file_type);
                match begun_fact(t, file_type) {
                    Ok(Some(f)) => {
                        assert(texts_between(events, i + 1, i + 1) =~= Seq::empty()) by {
                            let none = events.subrange(i + 1, i + 1).map_values(
                                |e: EventModel| event_text(e),
                            );
                            assert(none =~= Seq::<Seq<char>>::empty());
                        }
                        assert(f.val =~= Seq::empty());
                        assert(is_open(f, events, i, i + 1, file_type));
                        lemma_facts(facts, at, Some(f), i, events, i + 1, contexts, file_type)
                    },
                    Ok(None) => lemma_facts(
                        facts,
                        at,
                        None,
                        s,
                        events,
                        i + 1,
                        contexts,
                        file_type,
                    ),
                    Err(_) => (at, i),
                }
            },
            (EventModel::Empty(t), None) => {
                lemma_begun(t, file_type);
                match begun_fact(t, file_type) {
                    Ok(Some(f)) => {
                        law_trim(f.val);
                        let fact = ended_fact(f, contexts);
                        assert(is_fact_at(fact, events, i, i, contexts, file_type));
                        lemma_more_facts(
                            facts,
                            at,
                            fact,
                            (i, i),
                            None,
                            s,
                            events,
                            i,
                            contexts,
                            file_type,
                        );
                        lemma_facts(
                            facts.push(fact),
                            at.push((i, i)),
                            None,
                            s,
                            events,
                            i + 1,
                            contexts,
                            file_type,
                        )
                    },
                    Ok(None) => lemma_facts(
                        facts,
                        at,
                        None,
                        s,
                        events,
                        i + 1,
                        contexts,
                        file_type,
                    ),
                    Err(_) => (at, i),
                }
            },
            (EventModel::Text(r), Some(f)) => {
                match r {
                    Ok(t) => {
                        lemma_more_text(events, s + 1, i);
                        let next = OpenFact { val: f.val + t, ..f };
                        assert(is_open(next, events, s, i + 1, file_type));
                        lemma_facts(facts, at, Some(next), s, events, i + 1, contexts, file_type)
                    },
                    Err(_) => (at, i),
                }
            },
            (EventModel::CData(b), Some(f)) => {
                lemma_more_text(events, s + 1, i);
                let next = OpenFact { val: f.val + utf8_lossy(b), ..f };
                assert(is_open(next, events, s, i + 1, file_type));
                lemma_facts(facts, at, Some(next), s, events, i + 1, contexts, file_type)
            },
            (EventModel::End(_), Some(f)) => {
                if f.depth > 1 {
                    lemma_more_text(events, s + 1, i);
                    assert(f.val + Seq::<char>::empty() =~= f.val);
                    let next = OpenFact { depth: (f.depth - 1) as nat, ..f };
                    assert(is_open(next, events, s, i + 1, file_type));
                    lemma_facts(facts, at, Some(next), s, events, i + 1, contexts, file_type)
                } else {
                    law_trim(f.val);
                    let fact = ended_fact(f, contexts);
                    assert(nesting(events, s + 1, i) >= 0);
                    assert(is_ended_by(events, s, i));
                    assert(is_fact_at(fact, events, s, i, contexts, file_type));
                    lemma_more_facts(
                        facts,
                        at,
                        fact,
                        (s, i),
                        current,
                        s,
                        events,
                        i,
                        contexts,
                        file_type,
                    );
                    lemma_facts(
                        facts.push(fact),
                        at.push((s, i)),
                        None,
                        s,
                        events,
                        i + 1,
                        contexts,
                        file_type,
                    )
                }
            },
            (EventModel::Failed(_), _) => (at, i),
            (_, Some(f)) => {
                lemma_more_text(events, s + 1, i);
                assert(f.val + Seq::<char>::empty() =~= f.val);
                assert(is_open(f, events, s, i + 1, file_type));
                lemma_facts(facts, at, current, s, events, i + 1, contexts, file_type)
            },
            (_, None) => lemma_facts(facts, at, current, s, events, i + 1, contexts, file_type),
        }
    }
}

/// The facts of a document are those of its elements that begin a fact, in order, but for those
/// inside another fact: the value of a fact is made of all the texts between its start tag and the
/// end tag that matches it, however deep they stand.
pub proof fn law_facts_say_what_elements_say(events: Seq<EventModel>, file_type: XbrlFileType)
    ensures
        document_facts(events, file_type) matches Ok(facts) ==> document_contexts(events) matches
            Ok(contexts) && exists|at: Seq<(int, int)>, n: int|
            #[trigger] are_facts_at(facts, at, events, n, contexts, file_type) && is_document_end(
                events,
                n,
            ),
{
    if let Ok(contexts) = document_contexts(events) {
        let (at, n) = lemma_facts(
            Seq::empty(),
            Seq::empty(),
            None,
            0,
            events,
            0,
            contexts,
            file_type,
        );
        if let Ok(facts) = document_facts(events, file_type) {
            assert(are_facts_at(facts, at, events, n, contexts, file_type));
        }
    }
}

/// Whether an event is not malformed.
pub open spec fn is_read(e: EventModel) -> bool {
    match e {
        EventModel::Start(tag) => is_read_tag(tag),
        EventModel::Empty(tag) => is_read_tag(tag),
        EventModel::Failed(_) => false,
        _ => is_read_text(e),
    }
}

proof fn lemma_read_contexts(
    events: Seq<EventModel>,
    i: int,
    contexts: Map<Seq<char>, Entries>,
    current: Option<OpenContext>,
)
    requires
        forall|k: int| 0 <= k < events.len() ==> is_read(#[trigger] events[k]),
        0 <= i,
    ensures
        contexts_from(events, i, contexts, current) is Ok,
    decreases events.len() - i,
{
    if i < events.len() {
        assert(is_read(events[i]));
        match (events[i], current) {
            (EventModel::Start(t), Some(c)) => {
                law_read_tags_have_attributes(t);
                let text_key = text_key_of(t)->Ok_0;
                let next = OpenContext { depth: c.depth + 1, text_key, ..c };
                lemma_read_contexts(events, i + 1, contexts, Some(next));
            },
            (EventModel::Start(t), None) => {
                law_read_tags_have_attributes(t);
                lemma_read_contexts(events, i + 1, contexts, None);
                let begun = begun_context(attribute_map(t)->Ok_0);
                lemma_read_contexts(events, i + 1, contexts, Some(begun));
            },
            (EventModel::Empty(t), Some(c)) => {
                law_read_tags_have_attributes(t);
                lemma_read_contexts(events, i + 1, contexts, Some(c));
                if let Ok(Some(key)) = empty_key_of(t) {
                    let next = OpenContext { data: put(c.data, key, Seq::empty()), ..c };
                    lemma_read_contexts(events, i + 1, contexts, Some(next));
                }
            },
            (EventModel::Text(r), Some(c)) => {
                let next = context_with_text(
                    c,
                    match r {
                        Ok(s) => s,
                        Err(_) => Seq::empty(),
                    },
                );
                lemma_read_contexts(events, i + 1, contexts, Some(next));
            },
            (EventModel::CData(b), Some(c)) => {
                let next = context_with_text(c, utf8_lossy(b));
                lemma_read_contexts(events, i + 1, contexts, Some(next));
            },
            (EventModel::End(_), Some(c)) => {
                let deeper = OpenContext { text_key: None, depth: (c.depth - 1) as nat, ..c };
                let kept = OpenContext { text_key: None, ..c };
                let more = match c.id {
                    Some(id) => contexts.insert(id, c.data),
                    None => contexts,
                };
                lemma_read_contexts(events, i + 1, contexts, Some(deeper));
                lemma_read_contexts(events, i + 1, contexts, Some(kept));
                lemma_read_contexts(events, i + 1, more, None);
            },
            _ => lemma_read_contexts(events, i + 1, contexts, current),
        }
    }
}

proof fn lemma_read_facts(
    events: Seq<EventModel>,
    i: int,
    facts: Seq<FactModel>,
    current: Option<OpenFact>,
    contexts: Map<Seq<char>, Entries>,
    file_type: XbrlFileType,
)
    requires
        forall|k: int| 0 <= k < events.len() ==> is_read(#[trigger] events[k]),
        0 <= i,
    ensures
        facts_from(events, i, facts, current, contexts, file_type) is Ok,
    decreases events.len() - i,
{
    if i < events.len() {
        assert(is_read(events[i]));
        match (events[i], current) {
            (EventModel::Start(_), Some(f)) => {
                let next = Some(OpenFact { depth: f.depth + 1, ..f });
                lemma_read_facts(events, i + 1, facts, next, contexts, file_type);
            },
            (EventModel::Start(t), None) => {
                law_read_tags_have_attributes(t);
                let begun = begun_fact(t, file_type)->Ok_0;
                lemma_read_facts(events, i + 1, facts, begun, contexts, file_type);
            },
            (EventModel::Empty(t), None) => {
                law_read_tags_have_attributes(t);
                lemma_read_facts(events, i + 1, facts, None, contexts, file_type);
                if let Ok(Some(f)) = begun_fact(t, file_type) {
                    let more = facts.push(ended_fact(f, contexts));
                    lemma_read_facts(events, i + 1, more, None, contexts, file_type);
                }
            },
            (EventModel::Text(r), Some(f)) => {
                if let Ok(s) = r {
                    let next = Some(OpenFact { val: f.val + s, ..f });
                    lemma_read_facts(events, i + 1, facts, next, contexts, file_type);
                }
            },
            (EventModel::CData(b), Some(f)) => {
                let next = Some(OpenFact { val: f.val + utf8_lossy(b), ..f });
                lemma_read_facts(events, i + 1, facts, next, contexts, file_type);
            },
            (EventModel::End(_), Some(f)) => {
                let next = Some(OpenFact { depth: (f.depth - 1) as nat, ..f });
                let more = facts.push(ended_fact(f, contexts));
                lemma_read_facts(events, i + 1, facts, next, contexts, file_type);
                lemma_read_facts(events, i + 1, more, None, contexts, file_type);
            },
            _ => lemma_read_facts(events, i + 1, facts, current, contexts, file_type),
        }
    }
}

/// A document in which nothing is malformed has facts and contexts: it is not refused.
pub proof fn law_read_documents_have_facts(events: Seq<EventModel>, file_type: XbrlFileType)
    requires
        forall|k: int| 0 <= k < events.len() ==> is_read(#[trigger] events[k]),
    ensures
        document_contexts(events) is Ok,
        document_facts(events, file_type) is Ok,
{
    lemma_read_contexts(events, 0, Map::empty(), None);
    let contexts = document_contexts(events)->Ok_0;
    lemma_read_facts(events, 0, Seq::empty(), None, contexts, file_type);
}

// ---------------------------------------------------------------------------
// Names
// ---------------------------------------------------------------------------

/// The local part of a name is what stands behind its first colon, or the name itself where it has
/// none.
pub proof fn law_local_part_follows_colon(prefix: Seq<u8>, rest: Seq<u8>)
    requires
        !prefix.contains(58u8),
    ensures
        local_part(prefix + seq![58u8] + rest) == rest,
        local_part(prefix) == prefix,
{
    let name = prefix + seq![58u8] + rest;
    let n = prefix.len() as int;
    assert forall|j: int| 0 <= j < n implies name[j] != 58 by {
        assert(prefix[j] == name[j]);
        assert(prefix.contains(prefix[j]));
    }
    lemma_colon_index(name, n);
    assert(name.skip(n + 1) =~= rest);
    assert forall|j: int| 0 <= j < n implies prefix[j] != 58 by {
        assert(prefix.contains(prefix[j]));
    }
    lemma_colon_index(prefix, n);
}

/// Two bytes are the same letter, whatever its case.
pub open spec fn is_same_letter(a: u8, b: u8) -> bool {
    ||| a == b
    ||| 65 <= a <= 90 && b == a + 32
    ||| 65 <= b <= 90 && a == b + 32
}

/// Names are compared letter by letter, whatever their case.
pub proof fn law_names_ignore_case(name: Seq<u8>, expected: Seq<char>)
    ensures
        has_local_name(name, expected) <==> {
            let (a, b) = (local_part(name), encode_utf8(expected));
            a.len() == b.len() && forall|i: int|
                0 <= i < a.len() ==> is_same_letter(#[trigger] a[i], b[i])
        },
{
    let (a, b) = (local_part(name), encode_utf8(expected));
    let (x, y) = (lower_bytes(a), lower_bytes(b));
    if has_local_name(name, expected) {
        assert(x.len() == a.len() && y.len() == b.len());
        assert forall|i: int| 0 <= i < a.len() implies is_same_letter(#[trigger] a[i], b[i]) by {
            assert(x[i] == y[i]);
        }
    }
    if a.len() == b.len() && forall|i: int|
        0 <= i < a.len() ==> is_same_letter(#[trigger] a[i], b[i]) {
        assert forall|i: int| 0 <= i < x.len() implies x[i] == y[i] by {
            assert(is_same_letter(a[i], b[i]));
        }
        assert(x =~= y);
    }
}

} // verus!
