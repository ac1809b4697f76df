//! What the contexts of a document say, told from its events.
use vstd::prelude::*;
use vstd::utf8::{encode_utf8, is_ascii_chars_encode_utf8};

use crate::encoding::utf8_lossy;
use crate::fact_laws::{
    follow_each_other, gives_attribute, is_attribute, is_document_end, is_ended_by, is_last_named,
    is_unended, law_last_attribute_counts, names_attribute, nesting, stands_within,
};
use crate::ordered_map::{
    in_key_order, law_put_keeps_order, law_put_then_lookup, lookup, put, Entries,
};
use crate::record_laws::{is_entry, law_lookup_finds_entry, lemma_entry_is_one};
use crate::xbrl::{
    attribute_map, begun_context, context_with_text, contexts_from, document_contexts, empty_key_of,
    text_key_of, OpenContext,
};
use crate::xml::{has_local_name, lower_bytes, EventModel, TagModel};

verus! {

// ---------------------------------------------------------------------------
// Keys
// ---------------------------------------------------------------------------

/// Whether a context keeps the text of an element with the given tag under a key: its identifier,
/// the dates of its period, or its members by their dimensions.
pub open spec fn gives_key(tag: TagModel, key: Seq<char>) -> bool {
    ||| has_local_name(tag.name, "identifier"@) && key == "entity_identifier"@
    ||| has_local_name(tag.name, "instant"@) && key == "period_instant"@
    ||| has_local_name(tag.name, "startdate"@) && key == "period_startdate"@
    ||| has_local_name(tag.name, "enddate"@) && key == "period_enddate"@
    ||| has_local_name(tag.name, "explicitmember"@) && is_attribute(None, tag, "dimension"@) && key
        == "explicitmember"@
    ||| has_local_name(tag.name, "explicitmember"@) && names_dimension(tag, key)
}

/// Whether a key names the dimension of a tag.
pub open spec fn names_dimension(tag: TagModel, key: Seq<char>) -> bool {
    exists|d: Seq<char>|
        #[trigger] is_attribute(Some(d), tag, "dimension"@) && key == "dimension:"@ + d
}

/// Whether an event is a start tag or an end tag.
pub open spec fn is_tag(e: EventModel) -> bool {
    e is Start || e is End
}

/// Whether the `t`-th event is the last tag before the `q`-th, and begins an element whose text is
/// kept under a key.
pub open spec fn is_key_tag(events: Seq<EventModel>, t: int, q: int, key: Seq<char>) -> bool {
    &&& t < q
    &&& events[t] matches EventModel::Start(tag) && gives_key(tag, key)
    &&& forall|k: int| t < k < q ==> !is_tag(#[trigger] events[k])
}

/// Whether a text at the `q`-th event goes under a key in the context that begins at `s`: the last
/// tag before it says so.
pub open spec fn is_under(events: Seq<EventModel>, s: int, q: int, key: Seq<char>) -> bool {
    exists|t: int| s < t && #[trigger] is_key_tag(events, t, q, key)
}

/// What the event brings where it stands under a key; a text that cannot be read is empty.
pub open spec fn text_brought(e: EventModel) -> Option<Seq<char>> {
    match e {
        EventModel::Text(Ok(s)) => Some(s),
        EventModel::Text(Err(_)) => Some(Seq::empty()),
        EventModel::CData(b) => Some(utf8_lossy(b)),
        _ => None,
    }
}

/// Whether an empty element stands for a member of a dimension with no name.
pub open spec fn clears(e: EventModel, key: Seq<char>) -> bool {
    e matches EventModel::Empty(tag) && has_local_name(tag.name, "explicitmember"@)
        && names_dimension(tag, key)
}

/// What the context that begins at `s` holds under a key before the `p`-th event: all texts that go
/// under it, one behind the other, since the last empty element that cleared it.
pub open spec fn text_under(events: Seq<EventModel>, s: int, p: int, key: Seq<char>) -> Option<
    Seq<char>,
>
    decreases p - s,
{
    if p <= s + 1 {
        None
    } else {
        let before = text_under(events, s, p - 1, key);
        let e = events[p - 1];
        if clears(e, key) {
            Some(Seq::empty())
        } else if is_under(events, s, p - 1, key) && text_brought(e) is Some {
            Some(
                (match before {
                    Some(v) => v,
                    None => Seq::empty(),
                }) + text_brought(e)->0,
            )
        } else {
            before
        }
    }
}

// ---------------------------------------------------------------------------
// Contexts
// ---------------------------------------------------------------------------

/// Whether a tag has the given identifier.
pub open spec fn is_identifier(id: Option<Seq<char>>, tag: TagModel) -> bool {
    ||| id is Some && is_attribute(id, tag, "id"@)
    ||| is_attribute(None, tag, "id"@) && is_attribute(id, tag, "xml:id"@)
}

/// Whether the data of a context with the given identifier are what the events from its start tag
/// at `s` to before the `p`-th say.
pub open spec fn is_data_of(
    data: Entries,
    id: Option<Seq<char>>,
    events: Seq<EventModel>,
    s: int,
    p: int,
) -> bool {
    &&& in_key_order(data)
    &&& forall|key: Seq<char>, v: Option<Seq<char>>| #[trigger]
        is_entry(v, data, key) ==> v == (if key == "_contextref"@ {
            id
        } else {
            text_under(events, s, p, key)
        })
}

/// Whether an event begins a context.
pub open spec fn begins_context(e: EventModel) -> bool {
    e matches EventModel::Start(tag) && has_local_name(tag.name, "context"@)
}

/// Whether a context with the given identifier stands from the `i`-th to the `j`-th event.
pub open spec fn is_context_at(
    events: Seq<EventModel>,
    i: int,
    j: int,
    id: Option<Seq<char>>,
) -> bool {
    &&& begins_context(events[i])
    &&& is_ended_by(events, i, j)
    &&& events[i] matches EventModel::Start(tag) && is_identifier(id, tag)
}

/// Whether the elements at `at`, with the identifiers `ids`, are the contexts before the `n`-th
/// event: no other context begins there, but inside one that is not ended.
pub open spec fn are_contexts_at(
    at: Seq<(int, int)>,
    ids: Seq<Option<Seq<char>>>,
    events: Seq<EventModel>,
    n: int,
) -> bool {
    &&& ids.len() == at.len()
    &&& follow_each_other(at)
    &&& forall|k: int|
        0 <= k < at.len() ==> (#[trigger] at[k]).1 < n && is_context_at(
            events,
            at[k].0,
            at[k].1,
            ids[k],
        )
    &&& forall|p: int|
        0 <= p < n && begins_context(#[trigger] events[p]) ==> stands_within(at, p) || exists|
            q: int,
        |
            0 <= q <= p && begins_context(#[trigger] events[q]) && is_unended(events, q, n)
}

/// Whether the `k`-th context is the last with the given identifier.
pub open spec fn is_last_with(ids: Seq<Option<Seq<char>>>, k: int, id: Seq<char>) -> bool {
    &&& 0 <= k < ids.len()
    &&& ids[k] == Some(id)
    &&& forall|l: int| k < l < ids.len() ==> #[trigger] ids[l] != Some(id)
}

/// Whether under each identifier stand the data of the last context with it, and nothing where
/// there is none.
pub open spec fn map_contexts(
    contexts: Map<Seq<char>, Entries>,
    at: Seq<(int, int)>,
    ids: Seq<Option<Seq<char>>>,
    events: Seq<EventModel>,
) -> bool {
    &&& forall|id: Seq<char>, k: int| #[trigger]
        is_last_with(ids, k, id) ==> contexts.contains_key(id) && is_data_of(
            contexts[id],
            Some(id),
            events,
            at[k].0,
            at[k].1,
        )
    &&& forall|id: Seq<char>| #[trigger]
        contexts.contains_key(id) ==> exists|k: int| is_last_with(ids, k, id)
}

/// Whether every end tag bears the name of the start tag that it matches.
pub open spec fn is_well_nested(events: Seq<EventModel>) -> bool {
    forall|i: int, j: int| #[trigger]
        is_ended_by(events, i, j) ==> (events[i] matches EventModel::Start(tag) && events[j]
            == EventModel::End(tag.name))
}

// ---------------------------------------------------------------------------
// Reading on
// ---------------------------------------------------------------------------

proof fn lemma_attribute_found(tag: TagModel, key: Seq<char>)
    ensures
        attribute_map(tag) matches Ok(all) ==> is_attribute(lookup(all, key), tag, key) && (lookup(
            all,
            key,
        ) is Some ==> !is_attribute(None, tag, key)) && forall|v: Option<Seq<char>>| #[trigger]
            is_attribute(v, tag, key) ==> v == lookup(all, key),
{
    law_last_attribute_counts(tag);
    if let Ok(all) = attribute_map(tag) {
        law_lookup_finds_entry(all, key);
        let found = lookup(all, key);
        assert(is_entry(found, all, key));
        assert forall|v: Option<Seq<char>>| #[trigger] is_attribute(v, tag, key) implies v
            == found by {
            lemma_attribute_is_one(tag, key, v, found);
        }
        if found is Some && is_attribute(None, tag, key) {
            lemma_attribute_is_one(tag, key, None, found);
        }
    }
}

proof fn lemma_attribute_is_one(
    tag: TagModel,
    key: Seq<char>,
    a: Option<Seq<char>>,
    b: Option<Seq<char>>,
)
    requires
        is_attribute(a, tag, key),
        is_attribute(b, tag, key),
    ensures
        a == b,
{
    let n = tag.attributes.len();
    if let Some(v) = a {
        let i = choose|i: int|
            0 <= i < n && #[trigger] gives_attribute(tag, i, key, v)
                && is_last_named(tag, i, n as int, key);
        assert(names_attribute(tag, i, key));
        if let Some(w) = b {
            let k = choose|k: int|
                0 <= k < n && #[trigger] gives_attribute(tag, k, key, w)
                    && is_last_named(tag, k, n as int, key);
            assert(names_attribute(tag, k, key));
        }
    } else if let Some(w) = b {
        let k = choose|k: int| 0 <= k < n && #[trigger] gives_attribute(tag, k, key, w);
        assert(names_attribute(tag, k, key));
    }
}

/// No two of the names of elements that a context keeps are the same.
proof fn lemma_names_differ(name: Seq<u8>)
    ensures
        has_local_name(name, "identifier"@) ==> !has_local_name(name, "instant"@)
            && !has_local_name(name, "startdate"@) && !has_local_name(name, "enddate"@)
            && !has_local_name(name, "explicitmember"@),
        has_local_name(name, "instant"@) ==> !has_local_name(name, "startdate"@)
            && !has_local_name(name, "enddate"@) && !has_local_name(name, "explicitmember"@),
        has_local_name(name, "startdate"@) ==> !has_local_name(name, "enddate"@)
            && !has_local_name(name, "explicitmember"@),
        has_local_name(name, "enddate"@) ==> !has_local_name(name, "explicitmember"@),
{
    reveal_strlit("identifier");
    reveal_strlit("instant");
    reveal_strlit("startdate");
    reveal_strlit("enddate");
    reveal_strlit("explicitmember");
    is_ascii_chars_encode_utf8("identifier"@);
    is_ascii_chars_encode_utf8("instant"@);
    is_ascii_chars_encode_utf8("startdate"@);
    is_ascii_chars_encode_utf8("enddate"@);
    is_ascii_chars_encode_utf8("explicitmember"@);
    assert(lower_bytes(encode_utf8("identifier"@)).len() == 10);
    assert(lower_bytes(encode_utf8("instant"@)).len() == 7);
    assert(lower_bytes(encode_utf8("startdate"@)).len() == 9);
    assert(lower_bytes(encode_utf8("enddate"@)).len() == 7);
    assert(lower_bytes(encode_utf8("explicitmember"@)).len() == 14);
    let a = lower_bytes(encode_utf8("instant"@));
    let b = lower_bytes(encode_utf8("enddate"@));
    assert("instant"@[0] as u8 == encode_utf8("instant"@)[0]);
    assert("enddate"@[0] as u8 == encode_utf8("enddate"@)[0]);
    assert(a[0] != b[0]);
}

proof fn lemma_keys(tag: TagModel)
    ensures
        text_key_of(tag) matches Ok(found) ==> forall|key: Seq<char>| #[trigger]
            gives_key(tag, key) <==> found == Some(key),
        empty_key_of(tag) matches Ok(found) ==> forall|key: Seq<char>| #[trigger]
            clears(EventModel::Empty(tag), key) <==> found == Some(key),
{
    lemma_names_differ(tag.name);
    lemma_attribute_found(tag, "dimension"@);
    if let Ok(all) = attribute_map(tag) {
        if let Some(d) = lookup(all, "dimension"@) {
            assert(is_attribute(Some(d), tag, "dimension"@));
            assert forall|key: Seq<char>| #[trigger] names_dimension(tag, key) <==> key
                == "dimension:"@ + d by {}
        } else {
            assert forall|key: Seq<char>| !#[trigger] names_dimension(tag, key) by {}
        }
    }
}

proof fn lemma_under_next(events: Seq<EventModel>, s: int, q: int, key: Seq<char>)
    requires
        0 <= s < q,
    ensures
        events[q] matches EventModel::Start(tag) ==> (is_under(events, s, q + 1, key)
            <==> gives_key(tag, key)),
        events[q] is End ==> !is_under(events, s, q + 1, key),
        !is_tag(events[q]) ==> (is_under(events, s, q + 1, key) <==> is_under(events, s, q, key)),
{
    if let EventModel::Start(tag) = events[q] {
        if gives_key(tag, key) {
            assert(is_key_tag(events, q, q + 1, key));
        }
    }
    if is_under(events, s, q + 1, key) {
        let t = choose|t: int| s < t && #[trigger] is_key_tag(events, t, q + 1, key);
        if t < q {
            assert(!is_tag(events[q]));
            assert(is_key_tag(events, t, q, key));
        }
    }
    if is_under(events, s, q, key) && !is_tag(events[q]) {
        let t = choose|t: int| s < t && #[trigger] is_key_tag(events, t, q, key);
        assert(is_key_tag(events, t, q + 1, key));
    }
}

/// What is known of a context begun at `s` when the `i`-th event comes.
spec fn is_open(c: OpenContext, events: Seq<EventModel>, s: int, i: int) -> bool {
    &&& 0 <= s < i <= events.len()
    &&& begins_context(events[s])
    &&& events[s] matches EventModel::Start(tag) && is_identifier(c.id, tag)
    &&& is_unended(events, s, i)
    &&& c.depth == 1 + nesting(events, s + 1, i)
    &&& in_key_order(c.data)
    &&& lookup(c.data, "_contextref"@) == c.id
    &&& forall|key: Seq<char>|
        key != "_contextref"@ ==> #[trigger] lookup(c.data, key) == text_under(events, s, i, key)
    &&& forall|key: Seq<char>| #[trigger]
        is_under(events, s, i, key) <==> c.text_key == Some(key)
}

/// No text of a context goes under the key of its identifier.
proof fn lemma_key_is_free(tag: TagModel)
    ensures
        !gives_key(tag, "_contextref"@),
        !names_dimension(tag, "_contextref"@),
{
    reveal_strlit("_contextref");
    reveal_strlit("entity_identifier");
    reveal_strlit("period_instant");
    reveal_strlit("period_startdate");
    reveal_strlit("period_enddate");
    reveal_strlit("explicitmember");
    reveal_strlit("dimension:");
    assert("_contextref"@[0] == '_');
    assert("entity_identifier"@[0] == 'e');
    assert("period_instant"@[0] == 'p');
    assert("period_startdate"@[0] == 'p');
    assert("period_enddate"@[0] == 'p');
    assert("explicitmember"@[0] == 'e');
    assert forall|d: Seq<char>| "_contextref"@ != #[trigger] ("dimension:"@ + d) by {
        assert(("dimension:"@ + d)[0] == 'd');
    }
}

proof fn lemma_begun(events: Seq<EventModel>, s: int, tag: TagModel, attributes: Entries)
    requires
        0 <= s < events.len(),
        events[s] == EventModel::Start(tag),
        begins_context(events[s]),
        attribute_map(tag) == Ok::<Entries, Seq<char>>(attributes),
    ensures
        is_open(begun_context(attributes), events, s, s + 1),
{
    let c = begun_context(attributes);
    lemma_attribute_found(tag, "id"@);
    lemma_attribute_found(tag, "xml:id"@);
    assert(is_identifier(c.id, tag));
    let none = Seq::<(Seq<char>, Seq<char>)>::empty();
    if let Some(id) = c.id {
        law_put_keeps_order(none, "_contextref"@, id);
        assert forall|key: Seq<char>| #[trigger] lookup(c.data, key) == (if key == "_contextref"@ {
            Some(id)
        } else {
            None
        }) by {
            law_put_then_lookup(none, "_contextref"@, id, key);
        }
    }
    assert forall|key: Seq<char>| !#[trigger] is_under(events, s, s + 1, key) by {
        if is_under(events, s, s + 1, key) {
            let t = choose|t: int| s < t && #[trigger] is_key_tag(events, t, s + 1, key);
        }
    }
}

proof fn lemma_open_text(c: OpenContext, events: Seq<EventModel>, s: int, i: int)
    requires
        is_open(c, events, s, i),
        i < events.len(),
        text_brought(events[i]) is Some,
    ensures
        is_open(context_with_text(c, text_brought(events[i])->0), events, s, i + 1),
{
    let text = text_brought(events[i])->0;
    let next = context_with_text(c, text);
    assert forall|key: Seq<char>| #[trigger] is_under(events, s, i + 1, key) <==> next.text_key
        == Some(key) by {
        lemma_under_next(events, s, i, key);
    }
    if let Some(k) = c.text_key {
        assert(is_under(events, s, i, k));
        let t = choose|t: int| s < t && #[trigger] is_key_tag(events, t, i, k);
        lemma_key_is_free(events[t]->Start_0);
        assert(k != "_contextref"@);
        let v = match lookup(c.data, k) {
            Some(v) => v + text,
            None => text,
        };
        law_put_keeps_order(c.data, k, v);
        assert(Seq::<char>::empty() + text =~= text);
        law_put_then_lookup(c.data, k, v, "_contextref"@);
        assert forall|key: Seq<char>| key != "_contextref"@ implies #[trigger] lookup(
            next.data,
            key,
        ) == text_under(events, s, i + 1, key) by {
            law_put_then_lookup(c.data, k, v, key);
            assert(lookup(c.data, key) == text_under(events, s, i, key));
            assert(is_under(events, s, i, key) <==> c.text_key == Some(key));
        }
    } else {
        assert forall|key: Seq<char>| key != "_contextref"@ implies #[trigger] lookup(
            next.data,
            key,
        ) == text_under(events, s, i + 1, key) by {
            assert(is_under(events, s, i, key) <==> c.text_key == Some(key));
        }
    }
}

/// A context at an event that brings no text.
proof fn lemma_open_other(
    c: OpenContext,
    next: OpenContext,
    events: Seq<EventModel>,
    s: int,
    i: int,
)
    requires
        is_open(c, events, s, i),
        i < events.len(),
        text_brought(events[i]) is None,
        !(events[i] is Empty),
        next.data == c.data,
        next.id == c.id,
        next.depth == 1 + nesting(events, s + 1, i + 1),
        nesting(events, s + 1, i + 1) >= 0,
        match events[i] {
            EventModel::Start(tag) => text_key_of(tag) == Ok::<Option<Seq<char>>, Seq<char>>(
                next.text_key,
            ),
            EventModel::End(_) => next.text_key is None,
            _ => next.text_key == c.text_key,
        },
    ensures
        is_open(next, events, s, i + 1),
{
    if let EventModel::Start(tag) = events[i] {
        lemma_keys(tag);
    }
    assert forall|key: Seq<char>| #[trigger] is_under(events, s, i + 1, key) <==> next.text_key
        == Some(key) by {
        lemma_under_next(events, s, i, key);
        assert(is_under(events, s, i, key) <==> c.text_key == Some(key));
        if let EventModel::Start(tag) = events[i] {
            assert(gives_key(tag, key) <==> next.text_key == Some(key));
        }
    }
    assert forall|key: Seq<char>| key != "_contextref"@ implies #[trigger] lookup(next.data, key)
        == text_under(events, s, i + 1, key) by {
        assert(lookup(c.data, key) == text_under(events, s, i, key));
    }
}

proof fn lemma_open_empty(
    c: OpenContext,
    next: OpenContext,
    events: Seq<EventModel>,
    s: int,
    i: int,
    tag: TagModel,
    found: Option<Seq<char>>,
)
    requires
        is_open(c, events, s, i),
        i < events.len(),
        events[i] == EventModel::Empty(tag),
        empty_key_of(tag) == Ok::<Option<Seq<char>>, Seq<char>>(found),
        next == (match found {
            Some(key) => OpenContext { data: put(c.data, key, Seq::empty()), ..c },
            None => c,
        }),
    ensures
        is_open(next, events, s, i + 1),
{
    lemma_keys(tag);
    lemma_key_is_free(tag);
    assert forall|key: Seq<char>| #[trigger] is_under(events, s, i + 1, key) <==> next.text_key
        == Some(key) by {
        lemma_under_next(events, s, i, key);
        assert(is_under(events, s, i, key) <==> c.text_key == Some(key));
    }
    let none = Seq::<char>::empty();
    if let Some(k) = found {
        assert(clears(EventModel::Empty(tag), k));
        law_put_keeps_order(c.data, k, none);
        law_put_then_lookup(c.data, k, none, "_contextref"@);
    }
    assert forall|key: Seq<char>| key != "_contextref"@ implies #[trigger] lookup(next.data, key)
        == text_under(events, s, i + 1, key) by {
        assert(clears(EventModel::Empty(tag), key) <==> found == Some(key));
        assert(lookup(c.data, key) == text_under(events, s, i, key));
        if let Some(k) = found {
            law_put_then_lookup(c.data, k, none, key);
        }
    }
}

/// What is known of the contexts found before the `i`-th event.
spec fn found(
    contexts: Map<Seq<char>, Entries>,
    at: Seq<(int, int)>,
    ids: Seq<Option<Seq<char>>>,
    current: Option<OpenContext>,
    s: int,
    events: Seq<EventModel>,
    i: int,
) -> bool {
    &&& 0 <= i <= events.len()
    &&& ids.len() == at.len()
    &&& follow_each_other(at)
    &&& forall|k: int|
        0 <= k < at.len() ==> (#[trigger] at[k]).1 < i && is_context_at(
            events,
            at[k].0,
            at[k].1,
            ids[k],
        )
    &&& map_contexts(contexts, at, ids, events)
    &&& current matches Some(c) ==> is_open(c, events, s, i) && forall|k: int|
        0 <= k < at.len() ==> (#[trigger] at[k]).1 < s
    &&& forall|p: int|
        0 <= p < i && begins_context(#[trigger] events[p]) ==> stands_within(at, p) || (current
            is Some && s <= p)
    &&& forall|k: int| 0 <= k < i ==> !(#[trigger] events[k] is Eof) && !(events[k] is Failed)
}

proof fn lemma_more(
    contexts: Map<Seq<char>, Entries>,
    at: Seq<(int, int)>,
    ids: Seq<Option<Seq<char>>>,
    c: OpenContext,
    s: int,
    events: Seq<EventModel>,
    i: int,
)
    requires
        found(contexts, at, ids, Some(c), s, events, i),
        i < events.len(),
        is_ended_by(events, s, i),
    ensures
        ({
            let more = match c.id {
                Some(id) => contexts.insert(id, c.data),
                None => contexts,
            };
            found(more, at.push((s, i)), ids.push(c.id), None, s, events, i + 1)
        }),
{
    let more = match c.id {
        Some(id) => contexts.insert(id, c.data),
        None => contexts,
    };
    let places = at.push((s, i));
    let names = ids.push(c.id);
    let n = at.len() as int;
    assert forall|k: int, l: int| 0 <= k < l < places.len() implies (#[trigger] places[k]).1 < (
    #[trigger] places[l]).0 by {
        assert(places[k] == at[k]);
        if l < n {
            assert(places[l] == at[l]);
        }
    }
    assert forall|k: int| 0 <= k < places.len() implies (#[trigger] places[k]).1 < i + 1
        && is_context_at(events, places[k].0, places[k].1, names[k]) by {
        if k < n {
            assert(places[k] == at[k]);
        }
    }
    assert forall|p: int| 0 <= p < i + 1 && begins_context(
        #[trigger] events[p],
    ) implies stands_within(places, p) by {
        assert(places[n] == (s, i));
        if p < i && stands_within(at, p) {
            let k = choose|k: int| 0 <= k < at.len() && (#[trigger] at[k]).0 <= p <= at[k].1;
            assert(places[k] == at[k]);
        }
    }
    assert(is_data_of(c.data, c.id, events, s, i)) by {
        assert forall|key: Seq<char>, v: Option<Seq<char>>| #[trigger]
            is_entry(v, c.data, key) implies v == (if key == "_contextref"@ {
            c.id
        } else {
            text_under(events, s, i, key)
        }) by {
            law_lookup_finds_entry(c.data, key);
            lemma_entry_is_one(c.data, key, v, lookup(c.data, key));
        }
    }
    assert forall|id: Seq<char>, k: int| #[trigger] is_last_with(
        names,
        k,
        id,
    ) implies more.contains_key(id) && is_data_of(
        more[id],
        Some(id),
        events,
        places[k].0,
        places[k].1,
    ) by {
        if k < n {
            assert(names[n] != Some(id));
            assert forall|l: int| k < l < ids.len() implies #[trigger] ids[l] != Some(id) by {
                assert(names[l] == ids[l]);
            }
            assert(ids[k] == names[k]);
            assert(is_last_with(ids, k, id));
            assert(places[k] == at[k]);
        }
    }
    assert forall|id: Seq<char>| #[trigger] more.contains_key(id) implies exists|k: int|
        is_last_with(names, k, id) by {
        if c.id == Some(id) {
            assert(names[n] == Some(id));
            assert(is_last_with(names, n, id));
        } else {
            assert(contexts.contains_key(id));
            let k = choose|k: int| is_last_with(ids, k, id);
            assert forall|l: int| k < l < names.len() implies #[trigger] names[l] != Some(id) by {
                if l < n {
                    assert(names[l] == ids[l]);
                }
            }
            assert(is_last_with(names, k, id));
        }
    }
}

#[verifier::rlimit(60)]
proof fn lemma_contexts(
    contexts: Map<Seq<char>, Entries>,
    at: Seq<(int, int)>,
    ids: Seq<Option<Seq<char>>>,
    current: Option<OpenContext>,
    s: int,
    events: Seq<EventModel>,
    i: int,
) -> (r: (Seq<(int, int)>, Seq<Option<Seq<char>>>, int))
    requires
        found(contexts, at, ids, current, s, events, i),
        is_well_nested(events),
    ensures
        contexts_from(events, i, contexts, current) matches Ok(all) ==> {
            let (places, names, n) = r;
            &&& is_document_end(events, n)
            &&& are_contexts_at(places, names, events, n)
            &&& map_contexts(all, places, names, events)
        },
    decreases events.len() - i,
{
    if i >= events.len() || events[i] is Eof {
        assert forall|p: int| 0 <= p < i && begins_context(
            #[trigger] events[p],
        ) implies stands_within(at, p) || exists|q: int|
            0 <= q <= p && begins_context(#[trigger] events[q]) && is_unended(events, q, i) by {
            if !stands_within(at, p) {
                assert(begins_context(events[s]));
            }
        }
        (at, ids, i)
    } else {
        match (events[i], current) {
            (EventModel::Failed(_), _) => (at, ids, i),
            (EventModel::Start(t), Some(c)) => {
                match text_key_of(t) {
                    Err(_) => (at, ids, i),
                    Ok(text_key) => {
                        let next = OpenContext { depth: c.depth + 1, text_key, ..c };
                        lemma_open_other(c, next, events, s, i);
                        lemma_contexts(contexts, at, ids, Some(next), s, events, i + 1)
                    },
                }
            },
            (EventModel::Start(t), None) => {
                if has_local_name(t.name, "context"@) {
                    match attribute_map(t) {
                        Err(_) => (at, ids, i),
                        Ok(attributes) => {
                            lemma_begun(events, i, t, attributes);
                            let next = Some(begun_context(attributes));
                            lemma_contexts(contexts, at, ids, next, i, events, i + 1)
                        },
                    }
                } else {
                    lemma_contexts(contexts, at, ids, None, s, events, i + 1)
                }
            },
            (EventModel::Empty(t), Some(c)) => {
                match empty_key_of(t) {
                    Err(_) => (at, ids, i),
                    Ok(found) => {
                        let next = match found {
                            Some(key) => OpenContext { data: put(c.data, key, Seq::empty()), ..c },
                            None => c,
                        };
                        lemma_open_empty(c, next, events, s, i, t, found);
                        lemma_contexts(contexts, at, ids, Some(next), s, events, i + 1)
                    },
                }
            },
            (EventModel::Text(_), Some(c)) => {
                lemma_open_text(c, events, s, i);
                let next = Some(context_with_text(c, text_brought(events[i])->0));
                lemma_contexts(contexts, at, ids, next, s, events, i + 1)
            },
            (EventModel::CData(_), Some(c)) => {
                lemma_open_text(c, events, s, i);
                let next = Some(context_with_text(c, text_brought(events[i])->0));
                lemma_contexts(contexts, at, ids, next, s, events, i + 1)
            },
            (EventModel::End(_), Some(c)) => {
                assert(nesting(events, s + 1, i) >= 0);
                if c.depth > 1 {
                    let next = OpenContext { text_key: None, depth: (c.depth - 1) as nat, ..c };
                    lemma_open_other(c, next, events, s, i);
                    lemma_contexts(contexts, at, ids, Some(next), s, events, i + 1)
                } else {
                    assert(is_ended_by(events, s, i));
                    lemma_more(contexts, at, ids, c, s, events, i);
                    let more = match c.id {
                        Some(id) => contexts.insert(id, c.data),
                        None => contexts,
                    };
                    lemma_contexts(
                        more,
                        at.push((s, i)),
                        ids.push(c.id),
                        None,
                        s,
                        events,
                        i + 1,
                    )
                }
            },
            (EventModel::Other, Some(c)) => {
                lemma_open_other(c, c, events, s, i);
                lemma_contexts(contexts, at, ids, current, s, events, i + 1)
            },
            (_, None) => lemma_contexts(contexts, at, ids, None, s, events, i + 1),
            _ => (at, ids, i),
        }
    }
}

/// The contexts of a document are its elements of that name, each under its identifier; where two
/// have the same, the later counts. A context keeps the texts of its identifier, of the dates of
/// its period and of its members, each under its key.
pub proof fn law_contexts_say_what_elements_say(events: Seq<EventModel>)
    requires
        is_well_nested(events),
    ensures
        document_contexts(events) matches Ok(contexts) ==> exists|
            at: Seq<(int, int)>,
            ids: Seq<Option<Seq<char>>>,
            n: int,
        |
            #[trigger] are_contexts_at(at, ids, events, n) && is_document_end(events, n)
                && map_contexts(contexts, at, ids, events),
{
    let none = Map::<Seq<char>, Entries>::empty();
    let (at, ids, n) = lemma_contexts(none, Seq::empty(), Seq::empty(), None, 0, events, 0);
    if let Ok(contexts) = document_contexts(events) {
        assert(are_contexts_at(at, ids, events, n));
    }
}

} // verus!
