//! What the entries of a feed say, told from its events.
use vstd::prelude::*;
use vstd::utf8::{encode_scalar, encode_utf8, is_ascii_chars_encode_utf8};

use crate::common::{SubmissionModel, SubmissionSource, Timestamp};
use crate::encoding::utf8_lossy;
use crate::page_laws::{lemma_parse_unsigned, writes_number};
use crate::rss::{
    accession_index, after_equals, byte_prefix, char_width, end_seen, entries_from, feed_entries,
    feed_start, law_dates_take_ten_bytes, lemma_accession_index, lemma_char_width, mentioned,
    stated_size, summary_date, tag_seen, term_from, text_seen, title_cik, EntryModel, FeedState,
};
use crate::text::{
    before, drop_leading, drop_trailing, find, head, is_alpha, join, last_of, lemma_before,
    lemma_last_of, split, trim, trimmed, upper, words, CharClass,
};
use crate::text_laws::{
    is_trim_of, law_find_is_first, law_join_is_piecewise, law_split_reads_back, law_trim,
    law_trim_is_one, law_words_stand_in_text, stands_in, stands_spaced,
};
use crate::xml::{EventModel, TagModel};

verus! {

// ---------------------------------------------------------------------------
// Events
// ---------------------------------------------------------------------------

/// The tag of a start tag or an empty element.
pub open spec fn tag_of(e: EventModel) -> Option<TagModel> {
    match e {
        EventModel::Start(t) => Some(t),
        EventModel::Empty(t) => Some(t),
        _ => None,
    }
}

pub open spec fn begins(e: EventModel, name: Seq<char>) -> bool {
    tag_of(e) matches Some(t) && t.name == encode_utf8(name)
}

pub open spec fn ends(e: EventModel, name: Seq<char>) -> bool {
    e matches EventModel::End(n) && n == encode_utf8(name)
}

/// The text of an event; one that cannot be read is empty.
pub open spec fn text_of(e: EventModel) -> Option<Seq<char>> {
    match e {
        EventModel::Text(Ok(s)) => Some(s),
        EventModel::Text(Err(_)) => Some(Seq::empty()),
        _ => None,
    }
}

/// Whether the element of the given name that begins at `t` has not ended before the `q`-th event.
pub open spec fn is_open_since(events: Seq<EventModel>, t: int, q: int, name: Seq<char>) -> bool {
    &&& 0 <= t < q
    &&& begins(events[t], name)
    &&& forall|k: int| t < k < q ==> !ends(#[trigger] events[k], name)
}

/// Whether the `q`-th event stands inside an element of the given name.
pub open spec fn stands_inside(events: Seq<EventModel>, q: int, name: Seq<char>) -> bool {
    exists|t: int| #[trigger] is_open_since(events, t, q, name)
}

/// The texts since the last summary began before the `q`-th event, one behind the other.
pub open spec fn summary_text(events: Seq<EventModel>, q: int) -> Seq<char>
    decreases q,
{
    if q <= 0 || begins(events[q - 1], "summary"@) {
        Seq::empty()
    } else if stands_inside(events, q - 1, "summary"@) && text_of(events[q - 1]) is Some {
        summary_text(events, q - 1) + text_of(events[q - 1])->0
    } else {
        summary_text(events, q - 1)
    }
}

// ---------------------------------------------------------------------------
// Attributes
// ---------------------------------------------------------------------------

/// Whether the first attribute `term` of a tag has the given value.
pub open spec fn is_term(raw: Option<Seq<u8>>, tag: TagModel) -> bool {
    match raw {
        Some(v) => exists|i: int|
            0 <= i < tag.attributes.len() && is_term_at(tag, i) && #[trigger] term_value(tag, i)
                == v && forall|j: int| 0 <= j < i ==> !#[trigger] is_term_at(tag, j),
        None => forall|j: int| 0 <= j < tag.attributes.len() ==> !#[trigger] is_term_at(tag, j),
    }
}

pub open spec fn is_term_at(tag: TagModel, i: int) -> bool {
    tag.attributes[i] matches Ok(a) && a.key == encode_utf8("term"@)
}

pub open spec fn term_value(tag: TagModel, i: int) -> Seq<u8> {
    tag.attributes[i]->Ok_0.raw
}

proof fn lemma_term(tag: TagModel, i: int)
    requires
        0 <= i <= tag.attributes.len(),
        forall|j: int| 0 <= j < i ==> !#[trigger] is_term_at(tag, j),
    ensures
        is_term(term_from(tag.attributes, i), tag),
    decreases tag.attributes.len() - i,
{
    if i < tag.attributes.len() {
        if is_term_at(tag, i) {
            let found = term_from(tag.attributes, i);
            assert(term_value(tag, i) == found->0);
        } else {
            lemma_term(tag, i + 1);
        }
    }
}

// ---------------------------------------------------------------------------
// Entries
// ---------------------------------------------------------------------------

/// The type that the events from the `a`-th to before the `p`-th give an entry: the term of the
/// last category that has one.
pub open spec fn type_in(events: Seq<EventModel>, a: int, p: int) -> Seq<char>
    decreases p - a,
{
    if p <= a {
        Seq::empty()
    } else if begins(events[p - 1], "category"@) && term_from(
        tag_of(events[p - 1])->0.attributes,
        0,
    ) is Some {
        utf8_lossy(term_from(tag_of(events[p - 1])->0.attributes, 0)->0)
    } else {
        type_in(events, a, p - 1)
    }
}

/// Whether the `q`-th event is the text of a title.
pub open spec fn is_title_text(events: Seq<EventModel>, q: int) -> bool {
    text_of(events[q]) is Some && stands_inside(events, q, "title"@) && !stands_inside(
        events,
        q,
        "summary"@,
    )
}

/// The number that the titles among the events give an entry: that of the last one with
/// parentheses.
pub open spec fn cik_in(events: Seq<EventModel>, a: int, p: int) -> Option<u64>
    decreases p - a,
{
    if p <= a {
        None
    } else if is_title_text(events, p - 1) {
        title_cik(text_of(events[p - 1])->0, cik_in(events, a, p - 1))
    } else {
        cik_in(events, a, p - 1)
    }
}

/// Whether the `q`-th event states an accession number: outside titles and summaries, a text that
/// begins like the tag of a filing.
pub open spec fn states_accession(events: Seq<EventModel>, q: int) -> bool {
    (text_of(events[q]) matches Some(s) && "urn:tag:sec.gov"@.is_prefix_of(s)) && !stands_inside(
        events,
        q,
        "title"@,
    ) && !stands_inside(events, q, "summary"@)
}

/// The accession number that the events give an entry: the last that is stated.
pub open spec fn accession_in(events: Seq<EventModel>, a: int, p: int) -> Option<Seq<char>>
    decreases p - a,
{
    if p <= a {
        None
    } else if states_accession(events, p - 1) {
        Some(after_equals(text_of(events[p - 1])->0))
    } else {
        accession_in(events, a, p - 1)
    }
}

/// The summary that the events give an entry: the texts of the last one that ends among them.
pub open spec fn summary_in(events: Seq<EventModel>, a: int, p: int) -> Option<Seq<char>>
    decreases p - a,
{
    if p <= a {
        None
    } else if ends(events[p - 1], "summary"@) {
        Some(summary_text(events, p - 1))
    } else {
        summary_in(events, a, p - 1)
    }
}

/// The date that the events give an entry: that of the last summary that states one.
pub open spec fn date_in(events: Seq<EventModel>, a: int, p: int) -> Seq<char>
    decreases p - a,
{
    if p <= a {
        Seq::empty()
    } else if ends(events[p - 1], "summary"@) && (summary_date(summary_text(events, p - 1))
        matches Ok(Some(_))) {
        summary_date(summary_text(events, p - 1))->Ok_0->0
    } else {
        date_in(events, a, p - 1)
    }
}

/// What the events from the `a`-th to before the `p`-th say of an entry.
pub open spec fn entry_in(events: Seq<EventModel>, a: int, p: int) -> EntryModel {
    EntryModel {
        accession: accession_in(events, a, p),
        cik: cik_in(events, a, p),
        submission_type: type_in(events, a, p),
        filing_date: date_in(events, a, p),
        summary: summary_in(events, a, p),
    }
}

/// Where a feed ends: at its end, at the first error, or behind the last event.
pub open spec fn is_feed_end(events: Seq<EventModel>, n: int) -> bool {
    &&& 0 <= n <= events.len()
    &&& forall|k: int| 0 <= k < n ==> !(#[trigger] events[k] is Eof) && !(events[k] is Failed)
    &&& n < events.len() ==> events[n] is Eof || events[n] is Failed
}

/// Whether `at` names, in order, the ends of entries before the `n`-th event.
pub open spec fn names_entries(at: Seq<int>, events: Seq<EventModel>, n: int) -> bool {
    &&& forall|i: int, j: int| 0 <= i < j < at.len() ==> #[trigger] at[i] < #[trigger] at[j]
    &&& forall|i: int|
        0 <= i < at.len() ==> 0 <= #[trigger] at[i] < n && ends(events[at[i]], "entry"@)
    &&& forall|q: int| 0 <= q < n && ends(#[trigger] events[q], "entry"@) ==> at.contains(q)
}

/// The place behind the entry before the `k`-th.
pub open spec fn entry_begin(at: Seq<int>, k: int) -> int {
    if k <= 0 {
        0
    } else {
        at[k - 1] + 1
    }
}

/// Whether the entries are what the events between their ends say.
pub open spec fn are_entries_at(
    entries: Seq<EntryModel>,
    at: Seq<int>,
    events: Seq<EventModel>,
) -> bool {
    &&& entries.len() == at.len()
    &&& forall|k: int|
        0 <= k < at.len() ==> #[trigger] entries[k] == entry_in(
            events,
            entry_begin(at, k),
            at[k],
        )
}

proof fn lemma_inside_next(events: Seq<EventModel>, q: int, name: Seq<char>)
    requires
        0 <= q,
    ensures
        stands_inside(events, q + 1, name) <==> begins(events[q], name) || (stands_inside(
            events,
            q,
            name,
        ) && !ends(events[q], name)),
{
    if begins(events[q], name) {
        assert(is_open_since(events, q, q + 1, name));
    }
    if stands_inside(events, q + 1, name) {
        let t = choose|t: int| #[trigger] is_open_since(events, t, q + 1, name);
        if t < q {
            assert(is_open_since(events, t, q, name));
            assert(!ends(events[q], name));
        }
    }
    if stands_inside(events, q, name) && !ends(events[q], name) {
        let t = choose|t: int| #[trigger] is_open_since(events, t, q, name);
        assert(is_open_since(events, t, q + 1, name));
    }
}

/// What is known when the `i`-th event comes, behind the entry that ended before the `a`-th.
spec fn is_state(state: FeedState, events: Seq<EventModel>, a: int, i: int) -> bool {
    &&& 0 <= a <= i <= events.len()
    &&& state.entry == entry_in(events, a, i)
    &&& state.in_title == stands_inside(events, i, "title"@)
    &&& state.in_summary == stands_inside(events, i, "summary"@)
    &&& state.summary_text == summary_text(events, i)
}

proof fn lemma_names()
    ensures
        encode_utf8("category"@) != encode_utf8("summary"@),
        encode_utf8("category"@) != encode_utf8("title"@),
        encode_utf8("summary"@) != encode_utf8("title"@),
        encode_utf8("title"@) != encode_utf8("entry"@),
        encode_utf8("summary"@) != encode_utf8("entry"@),
{
    reveal_strlit("category");
    reveal_strlit("summary");
    reveal_strlit("title");
    reveal_strlit("entry");
    is_ascii_chars_encode_utf8("category"@);
    is_ascii_chars_encode_utf8("summary"@);
    is_ascii_chars_encode_utf8("title"@);
    is_ascii_chars_encode_utf8("entry"@);
    assert("title"@[0] as u8 == encode_utf8("title"@)[0]);
    assert("entry"@[0] as u8 == encode_utf8("entry"@)[0]);
}

proof fn lemma_tag(state: FeedState, events: Seq<EventModel>, a: int, i: int)
    requires
        is_state(state, events, a, i),
        i < events.len(),
        tag_of(events[i]) is Some,
    ensures
        is_state(tag_seen(state, tag_of(events[i])->0), events, a, i + 1),
{
    lemma_names();
    lemma_inside_next(events, i, "title"@);
    lemma_inside_next(events, i, "summary"@);
    assert(tag_seen(state, tag_of(events[i])->0).entry =~= entry_in(events, a, i + 1));
}

proof fn lemma_text(state: FeedState, events: Seq<EventModel>, a: int, i: int)
    requires
        is_state(state, events, a, i),
        i < events.len(),
        text_of(events[i]) is Some,
    ensures
        is_state(text_seen(state, text_of(events[i])->0), events, a, i + 1),
{
    lemma_inside_next(events, i, "title"@);
    lemma_inside_next(events, i, "summary"@);
    assert(text_seen(state, text_of(events[i])->0).entry =~= entry_in(events, a, i + 1));
}

proof fn lemma_entries(
    events: Seq<EventModel>,
    i: int,
    state: FeedState,
    entries: Seq<EntryModel>,
    at: Seq<int>,
) -> (r: (Seq<int>, int))
    requires
        is_state(state, events, entry_begin(at, at.len() as int), i),
        names_entries(at, events, i),
        are_entries_at(entries, at, events),
        forall|k: int| 0 <= k < i ==> !(#[trigger] events[k] is Eof) && !(events[k] is Failed),
    ensures
        entries_from(events, i, state, entries) matches Ok(all) ==> {
            let (places, n) = r;
            is_feed_end(events, n) && names_entries(places, events, n) && are_entries_at(
                all,
                places,
                events,
            )
        },
    decreases events.len() - i,
{
    let a = entry_begin(at, at.len() as int);
    if i >= events.len() {
        (at, i)
    } else {
        match events[i] {
            EventModel::Eof => (at, i),
            EventModel::Failed(_) => (at, i),
            EventModel::Start(t) => {
                lemma_tag(state, events, a, i);
                lemma_entries(events, i + 1, tag_seen(state, t), entries, at)
            },
            EventModel::Empty(t) => {
                lemma_tag(state, events, a, i);
                lemma_entries(events, i + 1, tag_seen(state, t), entries, at)
            },
            EventModel::Text(_) => {
                lemma_text(state, events, a, i);
                lemma_entries(
                    events,
                    i + 1,
                    text_seen(state, text_of(events[i])->0),
                    entries,
                    at,
                )
            },
            EventModel::End(name) => {
                lemma_names();
                lemma_inside_next(events, i, "title"@);
                lemma_inside_next(events, i, "summary"@);
                match end_seen(state, name, entries) {
                    Err(_) => (at, i),
                    Ok((next, more)) => {
                        if ends(events[i], "entry"@) {
                            let places = at.push(i);
                            assert forall|k: int| 0 <= k < places.len() implies #[trigger] more[k]
                                == entry_in(events, entry_begin(places, k), places[k]) by {
                                if k < at.len() {
                                    assert(more[k] == entries[k]);
                                    assert(entry_begin(places, k) == entry_begin(at, k));
                                } else {
                                    assert(entry_begin(places, k) == a);
                                }
                            }
                            assert forall|q: int| 0 <= q < i + 1 && ends(
                                #[trigger] events[q],
                                "entry"@,
                            ) implies places.contains(q) by {
                                if q < i {
                                    let k = choose|k: int| 0 <= k < at.len() && at[k] == q;
                                    assert(places[k] == q);
                                } else {
                                    assert(places[at.len() as int] == q);
                                }
                            }
                            assert(next.entry =~= entry_in(events, i + 1, i + 1));
                            assert(names_entries(places, events, i + 1));
                            lemma_entries(events, i + 1, next, more, places)
                        } else {
                            assert(next.entry =~= entry_in(events, a, i + 1));
                            lemma_entries(events, i + 1, next, more, at)
                        }
                    },
                }
            },
            _ => {
                lemma_inside_next(events, i, "title"@);
                lemma_inside_next(events, i, "summary"@);
                assert(state.entry =~= entry_in(events, a, i + 1));
                lemma_entries(events, i + 1, state, entries, at)
            },
        }
    }
}

/// A feed has one entry for each end of an entry, in order, made of what the events since the end
/// of the entry before it say.
pub proof fn law_entries_say_what_events_say(events: Seq<EventModel>)
    ensures
        feed_entries(events) matches Ok(entries) ==> exists|at: Seq<int>, n: int|
            #[trigger] names_entries(at, events, n) && is_feed_end(events, n) && are_entries_at(
                entries,
                at,
                events,
            ),
{
    let none = Seq::<int>::empty();
    assert forall|name: Seq<char>| !#[trigger] stands_inside(events, 0, name) by {
        if stands_inside(events, 0, name) {
            let t = choose|t: int| #[trigger] is_open_since(events, t, 0, name);
        }
    }
    assert(feed_start().entry =~= entry_in(events, 0, 0));
    assert(feed_start().summary_text =~= summary_text(events, 0));
    let (at, n) = lemma_entries(events, 0, feed_start(), Seq::empty(), none);
    if let Ok(entries) = feed_entries(events) {
        assert(names_entries(at, events, n));
    }
}

/// The type of an entry comes from the first attribute `term` of a category.
pub proof fn law_first_term_counts(tag: TagModel)
    ensures
        is_term(term_from(tag.attributes, 0), tag),
{
    lemma_term(tag, 0);
}

/// What stands behind the last equals sign holds none itself; a text without one stays whole.
pub proof fn law_accession_follows_equals(text: Seq<char>)
    ensures
        !after_equals(text).contains('='),
        text.contains('=') ==> exists|front: Seq<char>|
            text == #[trigger] (front + seq!['=']) + after_equals(text),
        !text.contains('=') ==> after_equals(text) == text,
{
    lemma_last_of(text, '=');
    let n = last_of(text, '=');
    let rest = after_equals(text);
    if rest.contains('=') {
        let i = choose|i: int| 0 <= i < rest.len() && rest[i] == '=';
        assert(text[n + 1 + i] == '=');
    }
    if text.contains('=') {
        let i = choose|i: int| 0 <= i < text.len() && text[i] == '=';
        let front = text.take(n);
        assert(text =~= (front + seq!['=']) + rest);
    } else {
        if n >= 0 {
            assert(text.contains('='));
        }
        assert(rest =~= text);
    }
}

/// Whether a text is an opening parenthesis, or nothing, behind other text.
pub open spec fn is_front(x: Seq<char>) -> bool {
    x.len() == 0 || x.last() == '('
}

/// Whether a part of a title stands between its last two opening parentheses, or before its only
/// one.
pub open spec fn is_last_but_one(part: Seq<char>, text: Seq<char>) -> bool {
    exists|x: Seq<char>, last: Seq<char>|
        #![trigger is_front(x), last.contains('(')]
        is_front(x) && !part.contains('(') && !last.contains('(') && text == x + part + seq!['(']
            + last
}

/// Whether a text is what stands before the first closing parenthesis of a part.
pub open spec fn is_inside(inner: Seq<char>, part: Seq<char>) -> bool {
    !inner.contains(')') && (part == inner || (inner + seq![')']).is_prefix_of(part))
}

/// Whether a number is the one that a text writes; there is none where it writes none.
pub open spec fn is_number_in(cik: Option<u64>, text: Seq<char>) -> bool {
    match cik {
        Some(n) => writes_number(text, n as nat),
        None => forall|n: nat| n <= u64::MAX ==> !#[trigger] writes_number(text, n),
    }
}

proof fn lemma_last_but_one(text: Seq<char>)
    requires
        split(text, '(').len() >= 2,
    ensures
        is_last_but_one(split(text, '(')[split(text, '(').len() - 2], text),
        text.contains('('),
{
    let parts = split(text, '(');
    law_split_reads_back(text, '(');
    let n = parts.len() as int;
    let part = parts[n - 2];
    let last = parts[n - 1];
    let front = parts.take(n - 2);
    let end = parts.skip(n - 2);
    assert(!part.contains('(') && !last.contains('('));
    let sep = seq!['('];
    assert(parts =~= front + end);
    assert(end =~= seq![part] + seq![last]);
    law_join_is_piecewise(front, end, sep);
    law_join_is_piecewise(seq![part], seq![last], sep);
    law_join_is_piecewise(seq![last], Seq::empty(), sep);
    if front.len() == 0 {
        assert(parts =~= end);
        let x = Seq::<char>::empty();
        assert(text =~= x + part + sep + last);
        assert(is_front(x));
        assert(text[part.len() as int] == '(');
    } else {
        let x = join(front, sep) + sep;
        assert(text =~= x + part + sep + last);
        assert(x.last() == '(');
        assert(is_front(x));
        assert(text[(x + part).len() as int] == '(');
    }
}

proof fn lemma_inside(part: Seq<char>)
    ensures
        is_inside(head(part, ')'), part),
{
    let inner = head(part, ')');
    lemma_before(part, ')');
    if inner.contains(')') {
        let i = choose|i: int| 0 <= i < inner.len() && inner[i] == ')';
        assert(part[i] == ')');
    }
    let k = before(part, ')') as int;
    if k < part.len() {
        assert(inner + seq![')'] =~= part.subrange(0, k + 1));
    } else {
        assert(inner =~= part);
    }
}

/// The number of a filer stands in the last but one of the parentheses of a title. Where it is no
/// number, there is none; a title without parentheses says nothing.
pub proof fn law_title_gives_cik(text: Seq<char>, cik: Option<u64>)
    ensures
        !text.contains('(') ==> title_cik(text, cik) == cik,
        text.contains('(') ==> exists|part: Seq<char>, inner: Seq<char>|
            #[trigger] is_last_but_one(part, text) && #[trigger] is_inside(inner, part)
                && is_number_in(title_cik(text, cik), inner),
{
    let parts = split(text, '(');
    law_split_reads_back(text, '(');
    if parts.len() == 1 {
        law_join_is_piecewise(parts, Seq::empty(), seq!['(']);
        assert(!parts[0].contains('('));
    } else {
        lemma_last_but_one(text);
        let part = parts[parts.len() - 2];
        lemma_inside(part);
        lemma_parse_unsigned(head(part, ')'), u64::MAX as nat);
    }
}

proof fn lemma_no_prefix(s: Seq<char>, n: int, p: Seq<char>)
    requires
        n >= 0,
        p.is_prefix_of(s),
        encode_utf8(p).len() == n,
    ensures
        byte_prefix(s, n) == Some(p),
    decreases s.len(),
{
    if p.len() == 0 {
        assert(p =~= Seq::empty());
    } else {
        let rest = p.drop_first();
        lemma_char_width(p[0]);
        assert(p[0] == s[0]);
        assert(rest.is_prefix_of(s.drop_first()));
        assert(encode_utf8(p) == encode_scalar(p[0] as u32) + encode_utf8(rest));
        lemma_no_prefix(s.drop_first(), n - char_width(s[0]), rest);
        assert(seq![s[0]] + rest =~= p);
    }
}

/// Whether a label first stands at the given place of a text.
pub open spec fn is_first_label(label: Seq<char>, text: Seq<char>, k: int) -> bool {
    stands_in(label, text, k) && forall|j: int| #[trigger] stands_in(label, text, j) ==> k <= j
}

/// Whether the given text stands at the front of what follows a label, and takes ten bytes.
pub open spec fn is_date_behind(date: Seq<char>, rest: Seq<char>) -> bool {
    exists|t: Seq<char>|
        #[trigger] is_trim_of(t, rest) && date.is_prefix_of(t) && encode_utf8(date).len() == 10
}

/// A summary states no date where its label is missing; else the date is the ten bytes behind the
/// first label and white space, and it is malformed where no text takes just those.
pub proof fn law_date_follows_label(summary: Seq<char>)
    ensures
        match summary_date(summary) {
            Ok(None) => forall|k: int| !#[trigger] stands_in("Filed:</b>"@, summary, k),
            Ok(Some(date)) => exists|k: int|
                #[trigger] is_first_label("Filed:</b>"@, summary, k) && is_date_behind(
                    date,
                    summary.skip(k + "Filed:</b>"@.len()),
                ),
            Err(_) => exists|k: int|
                #[trigger] is_first_label("Filed:</b>"@, summary, k) && forall|date: Seq<char>|
                    !#[trigger] is_date_behind(date, summary.skip(k + "Filed:</b>"@.len())),
        },
{
    let label = "Filed:</b>"@;
    law_find_is_first(summary, label);
    if let Some(n) = find(summary, label) {
        let rest = summary.skip(n as int + label.len());
        law_trim(rest);
        law_dates_take_ten_bytes(summary);
        assert(is_first_label(label, summary, n as int));
        match summary_date(summary) {
            Ok(_) => {
                let date = summary_date(summary)->Ok_0->0;
                assert(is_date_behind(date, rest));
            },
            Err(_) => {
                assert forall|date: Seq<char>| !#[trigger] is_date_behind(date, rest) by {
                    if is_date_behind(date, rest) {
                        let t = choose|t: Seq<char>|
                            #[trigger] is_trim_of(t, rest) && date.is_prefix_of(t) && encode_utf8(
                                date,
                            ).len() == 10;
                        law_trim_is_one(rest, t);
                        lemma_no_prefix(trim(rest), 10, date);
                    }
                }
            },
        }
    }
}

// ---------------------------------------------------------------------------
// Submissions
// ---------------------------------------------------------------------------

/// Whether the `i`-th entry, one of the first `n`, mentions a filing.
pub open spec fn mentions(accessions: Seq<Option<u64>>, n: int, i: int, accession: u64) -> bool {
    0 <= i < n && accessions[i] == Some(accession)
}

/// Whether a filing is first mentioned by the `i`-th entry.
pub open spec fn is_first_mention(accessions: Seq<Option<u64>>, n: int, i: int, a: u64) -> bool {
    mentions(accessions, n, i, a) && forall|j: int| #[trigger]
        mentions(accessions, n, j, a) ==> i <= j
}

/// Whether a text is the first of the given ones for a filing that is not empty, or is empty where
/// all are.
pub open spec fn is_first_text(
    text: Seq<char>,
    texts: Seq<Seq<char>>,
    accessions: Seq<Option<u64>>,
    n: int,
    a: u64,
) -> bool {
    ||| text.len() == 0 && forall|i: int| #[trigger]
        mentions(accessions, n, i, a) ==> texts[i].len() == 0
    ||| text.len() > 0 && exists|i: int|
        #[trigger] mentions(accessions, n, i, a) && texts[i] == text && forall|j: int| #[trigger]
            mentions(accessions, n, j, a) && j < i ==> texts[j].len() == 0
}

/// Whether a size is the first of the given ones for a filing, or missing where all are.
pub open spec fn is_first_size(
    size: Option<u64>,
    sizes: Seq<Option<u64>>,
    accessions: Seq<Option<u64>>,
    n: int,
    a: u64,
) -> bool {
    ||| size is None && forall|i: int| #[trigger]
        mentions(accessions, n, i, a) ==> sizes[i] is None
    ||| size is Some && exists|i: int|
        #[trigger] mentions(accessions, n, i, a) && sizes[i] == size && forall|j: int| #[trigger]
            mentions(accessions, n, j, a) && j < i ==> sizes[j] is None
}

/// Whether a filer is first named for a filing by the `i`-th entry.
pub open spec fn is_first_naming(
    ciks: Seq<Option<u64>>,
    accessions: Seq<Option<u64>>,
    n: int,
    a: u64,
    i: int,
    cik: u64,
) -> bool {
    mentions(accessions, n, i, a) && ciks[i] == Some(cik) && forall|j: int| #[trigger]
        mentions(accessions, n, j, a) && j < i ==> ciks[j] != Some(cik)
}

/// Whether the filers are those that the entries name for a filing, each once, in the order in
/// which they are first named.
pub open spec fn are_filers(
    list: Seq<u64>,
    at: Seq<int>,
    ciks: Seq<Option<u64>>,
    accessions: Seq<Option<u64>>,
    n: int,
    a: u64,
) -> bool {
    &&& list.len() == at.len()
    &&& forall|p: int, q: int| 0 <= p < q < at.len() ==> #[trigger] at[p] < #[trigger] at[q]
    &&& forall|p: int|
        0 <= p < at.len() ==> is_first_naming(ciks, accessions, n, a, #[trigger] at[p], list[p])
    &&& forall|i: int| #[trigger]
        mentions(accessions, n, i, a) && ciks[i] is Some ==> list.contains(ciks[i]->0)
}

pub open spec fn types_of(entries: Seq<EntryModel>) -> Seq<Seq<char>> {
    entries.map_values(|e: EntryModel| e.submission_type)
}

pub open spec fn dates_of(entries: Seq<EntryModel>) -> Seq<Seq<char>> {
    entries.map_values(|e: EntryModel| e.filing_date)
}

pub open spec fn ciks_of(entries: Seq<EntryModel>) -> Seq<Option<u64>> {
    entries.map_values(|e: EntryModel| e.cik)
}

/// Whether a submission is what the first `n` entries say of the filing.
pub open spec fn is_told(
    s: SubmissionModel,
    entries: Seq<EntryModel>,
    accessions: Seq<Option<u64>>,
    sizes: Seq<Option<u64>>,
    time: Timestamp,
    n: int,
) -> bool {
    &&& is_first_text(s.submission_type, types_of(entries), accessions, n, s.accession)
    &&& is_first_text(s.filing_date, dates_of(entries), accessions, n, s.accession)
    &&& is_first_size(s.size_bytes, sizes, accessions, n, s.accession)
    &&& exists|at: Seq<int>| #[trigger]
        are_filers(s.ciks, at, ciks_of(entries), accessions, n, s.accession)
    &&& s.source == SubmissionSource::Rss
    &&& s.detected_time == time
}

/// Whether the submissions are the filings that the first `n` entries mention, in the order of
/// their first mention.
pub open spec fn are_told(
    list: Seq<SubmissionModel>,
    at: Seq<int>,
    entries: Seq<EntryModel>,
    accessions: Seq<Option<u64>>,
    sizes: Seq<Option<u64>>,
    time: Timestamp,
    n: int,
) -> bool {
    &&& list.len() == at.len()
    &&& forall|p: int, q: int| 0 <= p < q < at.len() ==> #[trigger] at[p] < #[trigger] at[q]
    &&& forall|p: int|
        0 <= p < at.len() ==> is_first_mention(
            accessions,
            n,
            #[trigger] at[p],
            list[p].accession,
        ) && is_told(list[p], entries, accessions, sizes, time, n)
    &&& forall|i: int, a: u64| #[trigger]
        mentions(accessions, n, i, a) ==> exists|p: int|
            0 <= p < list.len() && (#[trigger] list[p]).accession == a
}

proof fn lemma_text_next(
    text: Seq<char>,
    texts: Seq<Seq<char>>,
    accessions: Seq<Option<u64>>,
    n: int,
    a: u64,
)
    requires
        0 <= n,
        is_first_text(text, texts, accessions, n, a),
    ensures
        accessions[n] != Some(a) ==> is_first_text(text, texts, accessions, n + 1, a),
        accessions[n] == Some(a) ==> is_first_text(
            if text.len() == 0 {
                texts[n]
            } else {
                text
            },
            texts,
            accessions,
            n + 1,
            a,
        ),
{
    assert forall|i: int| #[trigger] mentions(accessions, n + 1, i, a) implies mentions(
        accessions,
        n,
        i,
        a,
    ) || (i == n && accessions[n] == Some(a)) by {}
    if text.len() > 0 {
        let i = choose|i: int|
            #[trigger] mentions(accessions, n, i, a) && texts[i] == text && forall|j: int|
                #[trigger]
                mentions(accessions, n, j, a) && j < i ==> texts[j].len() == 0;
        assert(mentions(accessions, n + 1, i, a));
    } else if accessions[n] == Some(a) {
        assert(mentions(accessions, n + 1, n, a));
    }
}

proof fn lemma_size_next(
    size: Option<u64>,
    sizes: Seq<Option<u64>>,
    accessions: Seq<Option<u64>>,
    n: int,
    a: u64,
)
    requires
        0 <= n,
        is_first_size(size, sizes, accessions, n, a),
    ensures
        accessions[n] != Some(a) ==> is_first_size(size, sizes, accessions, n + 1, a),
        accessions[n] == Some(a) ==> is_first_size(
            if size is None {
                sizes[n]
            } else {
                size
            },
            sizes,
            accessions,
            n + 1,
            a,
        ),
{
    assert forall|i: int| #[trigger] mentions(accessions, n + 1, i, a) implies mentions(
        accessions,
        n,
        i,
        a,
    ) || (i == n && accessions[n] == Some(a)) by {}
    if size is Some {
        let i = choose|i: int|
            #[trigger] mentions(accessions, n, i, a) && sizes[i] == size && forall|j: int|
                #[trigger]
                mentions(accessions, n, j, a) && j < i ==> sizes[j] is None;
        assert(mentions(accessions, n + 1, i, a));
    } else if accessions[n] == Some(a) {
        assert(mentions(accessions, n + 1, n, a));
    }
}

proof fn lemma_filers_next(
    list: Seq<u64>,
    at: Seq<int>,
    ciks: Seq<Option<u64>>,
    accessions: Seq<Option<u64>>,
    n: int,
    a: u64,
) -> (next: Seq<int>)
    requires
        0 <= n,
        are_filers(list, at, ciks, accessions, n, a),
    ensures
        are_filers(
            if accessions[n] == Some(a) && ciks[n] is Some && !list.contains(ciks[n]->0) {
                list.push(ciks[n]->0)
            } else {
                list
            },
            next,
            ciks,
            accessions,
            n + 1,
            a,
        ),
{
    let grows = accessions[n] == Some(a) && ciks[n] is Some && !list.contains(ciks[n]->0);
    let more = if grows {
        list.push(ciks[n]->0)
    } else {
        list
    };
    let next = if grows {
        at.push(n)
    } else {
        at
    };
    assert forall|i: int| #[trigger] mentions(accessions, n + 1, i, a) implies mentions(
        accessions,
        n,
        i,
        a,
    ) || (i == n && accessions[n] == Some(a)) by {}
    assert forall|p: int| 0 <= p < next.len() implies is_first_naming(
        ciks,
        accessions,
        n + 1,
        a,
        #[trigger] next[p],
        more[p],
    ) by {
        if p < at.len() {
            assert(next[p] == at[p] && more[p] == list[p]);
            assert(is_first_naming(ciks, accessions, n, a, at[p], list[p]));
        } else {
            assert(mentions(accessions, n + 1, n, a));
            assert forall|j: int| #[trigger] mentions(accessions, n + 1, j, a) && j
                < n implies ciks[j] != Some(more[p]) by {
                assert(mentions(accessions, n, j, a));
            }
        }
    }
    assert forall|p: int, q: int| 0 <= p < q < next.len() implies #[trigger] next[p]
        < #[trigger] next[q] by {
        assert(next[p] == at[p]);
        assert(is_first_naming(ciks, accessions, n, a, at[p], list[p]));
        if q < at.len() {
            assert(next[q] == at[q]);
        }
    }
    assert forall|i: int| #[trigger] mentions(accessions, n + 1, i, a) && ciks[i]
        is Some implies more.contains(ciks[i]->0) by {
        if i < n {
            assert(mentions(accessions, n, i, a));
            let k = choose|k: int| 0 <= k < list.len() && list[k] == ciks[i]->0;
            assert(more[k] == list[k]);
        } else if grows {
            assert(more[list.len() as int] == ciks[n]->0);
        }
    }
    next
}

proof fn lemma_told(
    entries: Seq<EntryModel>,
    accessions: Seq<Option<u64>>,
    sizes: Seq<Option<u64>>,
    time: Timestamp,
    n: nat,
) -> (at: Seq<int>)
    requires
        n <= entries.len(),
    ensures
        are_told(
            mentioned(entries, accessions, sizes, time, n),
            at,
            entries,
            accessions,
            sizes,
            time,
            n as int,
        ),
    decreases n,
{
    if n == 0 {
        Seq::empty()
    } else {
        let m = n - 1;
        let before = lemma_told(entries, accessions, sizes, time, m as nat);
        let old = mentioned(entries, accessions, sizes, time, m as nat);
        let new = mentioned(entries, accessions, sizes, time, n);
        let e = entries[m];
        assert forall|i: int, a: u64| #[trigger] mentions(
            accessions,
            n as int,
            i,
            a,
        ) implies mentions(accessions, m, i, a) || (i == m && accessions[m] == Some(a)) by {}
        let known = accessions[m] is None || accession_index(old, accessions[m]->0) < old.len();
        if accessions[m] is Some {
            lemma_accession_index(old, accessions[m]->0);
        }
        let at = if known {
            before
        } else {
            before.push(m)
        };
        assert forall|p: int| 0 <= p < at.len() implies is_first_mention(
            accessions,
            n as int,
            #[trigger] at[p],
            new[p].accession,
        ) && is_told(new[p], entries, accessions, sizes, time, n as int) by {
            if p < before.len() {
                let a = old[p].accession;
                assert(at[p] == before[p]);
                assert(is_first_mention(accessions, m, before[p], a));
                assert(mentions(accessions, n as int, before[p], a));
                lemma_text_next(old[p].submission_type, types_of(entries), accessions, m, a);
                lemma_text_next(old[p].filing_date, dates_of(entries), accessions, m, a);
                lemma_size_next(old[p].size_bytes, sizes, accessions, m, a);
                let f = choose|f: Seq<int>| #[trigger]
                    are_filers(old[p].ciks, f, ciks_of(entries), accessions, m, a);
                let g = lemma_filers_next(old[p].ciks, f, ciks_of(entries), accessions, m, a);
                if accessions[m] == Some(a) {
                    let q = accession_index(old, a) as int;
                    if q != p {
                        lemma_one_mention(before, old, entries, accessions, sizes, time, m, p, q);
                    }
                }
                assert(are_filers(new[p].ciks, g, ciks_of(entries), accessions, n as int, a));
            } else {
                let a = accessions[m]->0;
                assert(mentions(accessions, n as int, m, a));
                assert forall|j: int| !#[trigger] mentions(accessions, m, j, a) by {
                    if mentions(accessions, m, j, a) {
                        let q = choose|q: int|
                            0 <= q < old.len() && (#[trigger] old[q]).accession == a;
                    }
                }
                let none = Seq::<u64>::empty();
                assert(are_filers(none, Seq::empty(), ciks_of(entries), accessions, m, a));
                let g = lemma_filers_next(
                    none,
                    Seq::empty(),
                    ciks_of(entries),
                    accessions,
                    m,
                    a,
                );
                if let Some(c) = e.cik {
                    assert(none.push(c) =~= seq![c]);
                }
                assert(are_filers(new[p].ciks, g, ciks_of(entries), accessions, n as int, a));
                lemma_text_next(Seq::empty(), types_of(entries), accessions, m, a);
                lemma_text_next(Seq::empty(), dates_of(entries), accessions, m, a);
                lemma_size_next(None, sizes, accessions, m, a);
            }
        }
        assert forall|i: int, a: u64| #[trigger]
            mentions(accessions, n as int, i, a) implies exists|p: int|
            0 <= p < new.len() && (#[trigger] new[p]).accession == a by {
            if i < m {
                assert(mentions(accessions, m, i, a));
                let p = choose|p: int| 0 <= p < old.len() && (#[trigger] old[p]).accession == a;
                assert(new[p].accession == a);
            } else if known {
                let p = accession_index(old, a) as int;
                assert(new[p].accession == a);
            } else {
                assert(new[old.len() as int].accession == a);
            }
        }
        assert forall|p: int, q: int| 0 <= p < q < at.len() implies #[trigger] at[p]
            < #[trigger] at[q] by {
            assert(at[p] == before[p]);
            assert(is_first_mention(accessions, m, before[p], old[p].accession));
            if q < before.len() {
                assert(at[q] == before[q]);
            }
        }
        at
    }
}

proof fn lemma_one_mention(
    at: Seq<int>,
    list: Seq<SubmissionModel>,
    entries: Seq<EntryModel>,
    accessions: Seq<Option<u64>>,
    sizes: Seq<Option<u64>>,
    time: Timestamp,
    n: int,
    p: int,
    q: int,
)
    requires
        are_told(list, at, entries, accessions, sizes, time, n),
        0 <= p < list.len(),
        0 <= q < list.len(),
        list[p].accession == list[q].accession,
    ensures
        p == q,
{
    assert(is_first_mention(accessions, n, at[p], list[p].accession));
    assert(is_first_mention(accessions, n, at[q], list[q].accession));
    assert(at[p] == at[q]);
}

/// A feed lists each filing once, in the order of the first mentions. A filing has all the filers
/// that its mentions name, and the first type, date and size that they state.
pub proof fn law_filings_are_told_by_mentions(
    entries: Seq<EntryModel>,
    accessions: Seq<Option<u64>>,
    sizes: Seq<Option<u64>>,
    detected_time: Timestamp,
)
    ensures
        exists|at: Seq<int>|
            #[trigger] are_told(
                mentioned(entries, accessions, sizes, detected_time, entries.len()),
                at,
                entries,
                accessions,
                sizes,
                detected_time,
                entries.len() as int,
            ),
{
    let at = lemma_told(entries, accessions, sizes, detected_time, entries.len());
}

// ---------------------------------------------------------------------------
// Sizes
// ---------------------------------------------------------------------------

/// Whether a text holds no letters.
pub open spec fn has_no_letters(s: Seq<char>) -> bool {
    forall|i: int| 0 <= i < s.len() ==> !is_alpha(#[trigger] s[i])
}

/// Whether `core` is what is left of a word without what is no letter at its ends.
pub open spec fn is_core(core: Seq<char>, word: Seq<char>) -> bool {
    (core.len() > 0 ==> is_alpha(core[0]) && is_alpha(core.last())) && exists|
        a: Seq<char>,
        b: Seq<char>,
    |
        #![trigger has_no_letters(a), has_no_letters(b)]
        has_no_letters(a) && has_no_letters(b) && word == a + core + b
}

proof fn lemma_front(s: Seq<char>) -> (a: Seq<char>)
    ensures
        has_no_letters(a),
        s == a + drop_leading(s, CharClass::NonAlpha),
        drop_leading(s, CharClass::NonAlpha).len() > 0 ==> is_alpha(
            drop_leading(s, CharClass::NonAlpha)[0],
        ),
    decreases s.len(),
{
    let t = drop_leading(s, CharClass::NonAlpha);
    if s.len() > 0 && !is_alpha(s[0]) {
        let rest = lemma_front(s.drop_first());
        let a = seq![s[0]] + rest;
        assert(t == drop_leading(s.drop_first(), CharClass::NonAlpha));
        assert(s =~= seq![s[0]] + s.drop_first());
        assert(a + t =~= seq![s[0]] + (rest + t));
        assert forall|i: int| 0 <= i < a.len() implies !is_alpha(#[trigger] a[i]) by {
            if i > 0 {
                assert(a[i] == rest[i - 1]);
            }
        }
        a
    } else {
        assert(s =~= Seq::<char>::empty() + s);
        Seq::empty()
    }
}

proof fn lemma_end(s: Seq<char>) -> (b: Seq<char>)
    ensures
        has_no_letters(b),
        s == drop_trailing(s, CharClass::NonAlpha) + b,
        drop_trailing(s, CharClass::NonAlpha).len() > 0 ==> is_alpha(
            drop_trailing(s, CharClass::NonAlpha).last(),
        ) && drop_trailing(s, CharClass::NonAlpha)[0] == s[0],
    decreases s.len(),
{
    let t = drop_trailing(s, CharClass::NonAlpha);
    if s.len() > 0 && !is_alpha(s.last()) {
        let rest = lemma_end(s.drop_last());
        let b = rest.push(s.last());
        assert(t == drop_trailing(s.drop_last(), CharClass::NonAlpha));
        assert(s =~= s.drop_last().push(s.last()));
        assert(t + b =~= (t + rest).push(s.last()));
        b
    } else {
        assert(s =~= s + Seq::<char>::empty());
        Seq::empty()
    }
}

proof fn lemma_core(word: Seq<char>)
    ensures
        is_core(trimmed(word, CharClass::NonAlpha), word),
{
    let a = lemma_front(word);
    let d = drop_leading(word, CharClass::NonAlpha);
    let b = lemma_end(d);
    let core = trimmed(word, CharClass::NonAlpha);
    assert(word =~= a + core + b);
}

/// Whether a word is a unit of so many bytes: bytes, or a power of a thousand and twenty-four of
/// them, with or without the letter for bytes.
pub open spec fn is_unit(word: Seq<char>, bytes: u64) -> bool {
    exists|core: Seq<char>|
        #[trigger] is_core(core, word) && {
            let u = upper(core);
            ||| bytes == 1 && (u == "B"@ || u == "BYTE"@ || u == "BYTES"@)
            ||| bytes == 1024 && (u == "KB"@ || u == "K"@)
            ||| bytes == 1024 * 1024 && (u == "MB"@ || u == "M"@)
            ||| bytes == 1024 * 1024 * 1024 && (u == "GB"@ || u == "G"@)
        }
}

/// Whether words state a size: a number and the bytes of its unit, which is that of bytes where it
/// is missing.
pub open spec fn states_size(w: Seq<Seq<char>>, number: Seq<char>, bytes: u64) -> bool {
    &&& w.len() > 0
    &&& w[0] == number
    &&& if w.len() == 1 {
        bytes == 1
    } else {
        is_unit(w[1], bytes)
    }
}

/// Whether there are no words to state a size, or the second of them is no unit.
pub open spec fn states_no_size(w: Seq<Seq<char>>) -> bool {
    w.len() == 0 || w.len() > 1 && forall|bytes: u64| !#[trigger] is_unit(w[1], bytes)
}

proof fn lemma_core_is_one(word: Seq<char>, x: Seq<char>, y: Seq<char>)
    requires
        is_core(x, word),
        is_core(y, word),
    ensures
        x == y,
{
    let (a, b) = choose|a: Seq<char>, b: Seq<char>|
        #![trigger has_no_letters(a), has_no_letters(b)]
        has_no_letters(a) && has_no_letters(b) && word == a + x + b;
    let (c, d) = choose|c: Seq<char>, d: Seq<char>|
        #![trigger has_no_letters(c), has_no_letters(d)]
        has_no_letters(c) && has_no_letters(d) && word == c + y + d;
    let n = word.len() as int;
    if x.len() > 0 {
        let (i, j) = (a.len() as int, a.len() + x.len() - 1);
        assert(word[i] == x[0] && word[j] == x.last());
        if i < c.len() {
            assert(word[i] == c[i]);
        }
        if j >= c.len() + y.len() {
            assert(word[j] == d[j - c.len() - y.len()]);
        }
    }
    if y.len() > 0 {
        let (i, j) = (c.len() as int, c.len() + y.len() - 1);
        assert(word[i] == y[0] && word[j] == y.last());
        if i < a.len() {
            assert(word[i] == a[i]);
        }
        if j >= a.len() + x.len() {
            assert(word[j] == b[j - a.len() - x.len()]);
        }
    }
    if x.len() > 0 && y.len() > 0 {
        assert(a.len() == c.len() && x.len() == y.len());
        assert(x =~= word.subrange(a.len() as int, (a + x).len() as int));
        assert(y =~= word.subrange(a.len() as int, (a + x).len() as int));
    } else {
        assert(x =~= y);
    }
}

/// A summary states as the size the word behind the first label, in the unit that the next word
/// gives.
pub proof fn law_size_follows_label(summary: Seq<char>)
    ensures
        stated_size(summary) matches Some((number, bytes)) ==> exists|k: int, w: Seq<Seq<char>>|
            #![trigger is_first_label("Size:</b>"@, summary, k), states_size(w, number, bytes)]
            is_first_label("Size:</b>"@, summary, k) && stands_spaced(
                w,
                summary.skip(k + "Size:</b>"@.len()),
            ) && states_size(w, number, bytes),
        stated_size(summary) is None ==> {
            ||| forall|k: int| !#[trigger] stands_in("Size:</b>"@, summary, k)
            ||| exists|k: int, w: Seq<Seq<char>>|
                #![trigger is_first_label("Size:</b>"@, summary, k), states_no_size(w)]
                is_first_label("Size:</b>"@, summary, k) && stands_spaced(
                    w,
                    summary.skip(k + "Size:</b>"@.len()),
                ) && states_no_size(w)
        },
{
    let label = "Size:</b>"@;
    law_find_is_first(summary, label);
    if let Some(n) = find(summary, label) {
        let k = n as int;
        let rest = summary.skip(k + label.len());
        let w = words(rest);
        law_words_stand_in_text(rest);
        assert(is_first_label(label, summary, k));
        assert(stands_spaced(w, rest));
        if w.len() > 1 {
            lemma_core(w[1]);
        } else if w.len() == 1 {
            reveal_strlit("B");
        }
        if stated_size(summary) is None {
            if w.len() > 1 {
                assert forall|bytes: u64| !#[trigger] is_unit(w[1], bytes) by {
                    if is_unit(w[1], bytes) {
                        let core = choose|core: Seq<char>|
                            #[trigger] is_core(core, w[1]) && {
                                let u = upper(core);
                                ||| bytes == 1 && (u == "B"@ || u == "BYTE"@ || u == "BYTES"@)
                                ||| bytes == 1024 && (u == "KB"@ || u == "K"@)
                                ||| bytes == 1024 * 1024 && (u == "MB"@ || u == "M"@)
                                ||| bytes == 1024 * 1024 * 1024 && (u == "GB"@ || u == "G"@)
                            };
                        lemma_core_is_one(w[1], core, trimmed(w[1], CharClass::NonAlpha));
                    }
                }
            }
            assert(states_no_size(w));
        } else {
            let (number, bytes) = stated_size(summary)->0;
            assert(states_size(w, number, bytes));
        }
    }
}

} // verus!
