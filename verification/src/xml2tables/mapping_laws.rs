//! What the tables of a document are, told from a mapping and from the elements of the document.
use vstd::prelude::*;

use crate::collections::{entry_index, lemma_entry_index, text_entries, with_entry, with_item};
use crate::text::{drop_leading, drop_trailing, find, join, lower, split, trim, CharClass};
use crate::text_laws::{is_trim_of, law_find_is_first, law_trim, stands_in};
use crate::xml::{EventModel, TagModel};
use crate::xml2tables::laws::{columns_agree, lemma_resolved_agrees};
use crate::xml2tables::parser::{document_tables, filled_tables, resolved_tables};
use crate::xml2tables::paths::{
    all_have, at_or_below, attribute_text, element_path, first_around, first_existing,
    nonempty_parts, normal_columns, normal_path, path_of, path_tags, shared_boundary, shared_len,
    tag_lists, tag_text,
};
use crate::xml2tables::row_laws::{
    is_row_end, keys_differ, law_rows_hold_what_elements_hold, lemma_set_keys_differ,
    lemma_spec_stays, names_rows, paths_differ, row_holds, rows_hold,
};
use crate::xml2tables::specs::{
    attribute_paths_from, document_paths, normalized_specs, paths_from, present_columns, resolved,
    resolved_specs, with_columns, with_optional, NormalizedModel, ResolvedModel,
};
use crate::xml2tables::tables::{fresh_table, table_ended, TableModel};
use crate::xml2tables::tree_laws::{
    all_run, attribute_values, document_of, events_of, is_sound, is_sound_tag,
    law_tables_follow_steps, lemma_stand_split, own_text, path_below, run, stand_at, steps_of, Step,
    Xml,
};
use crate::xml2tables::types::XmlTableSpec;

verus! {

// ---------------------------------------------------------------------------
// Paths
// ---------------------------------------------------------------------------

/// Whether the element that ends with a step stands at a path or has an attribute there.
pub open spec fn has_path(step: Step, p: Seq<char>) -> bool {
    step matches Step::End(path, _, attributes) && (p == path || exists|i: int|
        0 <= i < attributes.len() && p == path + seq!['/', '@'] + (#[trigger] attributes[i]).0)
}

/// The paths of all elements and attributes.
pub open spec fn paths_in(steps: Seq<Step>) -> Set<Seq<char>> {
    Set::new(|p: Seq<char>| exists|i: int| 0 <= i < steps.len() && has_path(#[trigger] steps[i], p))
}

proof fn lemma_paths_in_on(a: Seq<Step>, b: Seq<Step>)
    ensures
        paths_in(a + b) == paths_in(a) + paths_in(b),
{
    let all = a + b;
    assert forall|p: Seq<char>| #[trigger] paths_in(all).contains(p) <==> paths_in(a).contains(p)
        || paths_in(b).contains(p) by {
        if paths_in(all).contains(p) {
            let i = choose|i: int| 0 <= i < all.len() && has_path(#[trigger] all[i], p);
            if i < a.len() {
                assert(has_path(a[i], p));
            } else {
                assert(has_path(b[i - a.len()], p));
            }
        }
        if paths_in(a).contains(p) {
            let i = choose|i: int| 0 <= i < a.len() && has_path(#[trigger] a[i], p);
            assert(has_path(all[i], p));
        }
        if paths_in(b).contains(p) {
            let i = choose|i: int| 0 <= i < b.len() && has_path(#[trigger] b[i], p);
            assert(has_path(all[a.len() + i], p));
        }
    }
    assert(paths_in(all) =~= paths_in(a) + paths_in(b));
}

/// The paths of the attributes from the `i`-th on.
spec fn attribute_set(tag: TagModel, i: int, path: Seq<char>) -> Set<Seq<char>> {
    Set::new(
        |p: Seq<char>|
            exists|k: int|
                i <= k < tag.attributes.len() && p == path + seq!['/', '@'] + (
                #[trigger] attribute_values(tag)[k]).0,
    )
}

proof fn lemma_attribute_paths(tag: TagModel, i: int, path: Seq<char>, known: Set<Seq<char>>)
    requires
        is_sound_tag(tag),
        0 <= i <= tag.attributes.len(),
    ensures
        attribute_paths_from(tag.attributes, i, path, known) == Ok::<Set<Seq<char>>, Seq<char>>(
            known + attribute_set(tag, i, path),
        ),
    decreases tag.attributes.len() - i,
{
    let all = attribute_set(tag, i, path);
    if i < tag.attributes.len() {
        assert(tag.attributes[i] matches Ok(a) && a.value is Ok);
        let p = path + seq!['/', '@'] + attribute_values(tag)[i].0;
        lemma_attribute_paths(tag, i + 1, path, known.insert(p));
        let later = attribute_set(tag, i + 1, path);
        assert forall|q: Seq<char>| #[trigger] (known + all).contains(q) <==> (known.insert(p)
            + later).contains(q) by {
            if all.contains(q) {
                let k = choose|k: int|
                    i <= k < tag.attributes.len() && q == path + seq!['/', '@'] + (
                    #[trigger] attribute_values(tag)[k]).0;
                if k > i {
                    assert(later.contains(q));
                }
            }
            if later.contains(q) {
                let k = choose|k: int|
                    i + 1 <= k < tag.attributes.len() && q == path + seq!['/', '@'] + (
                    #[trigger] attribute_values(tag)[k]).0;
                assert(all.contains(q));
            }
            if q == p {
                assert(all.contains(q));
            }
        }
        assert(known + all =~= known.insert(p) + later);
    } else {
        assert(known + all =~= known);
    }
}

proof fn lemma_path_below(stack: Seq<Seq<char>>, tag: TagModel)
    ensures
        path_of(stack.push(tag_text(tag.name))) == path_below(path_of(stack), tag),
{
    let more = stack.push(tag_text(tag.name));
    assert(more.drop_last() =~= stack);
    assert(path_of(more) =~= path_below(path_of(stack), tag));
}

#[verifier::rlimit(40)]
proof fn lemma_paths(
    events: Seq<EventModel>,
    i: int,
    nodes: Seq<Xml>,
    stack: Seq<Seq<char>>,
    known: Set<Seq<char>>,
)
    requires
        stand_at(events_of(nodes), events, i),
        is_sound(nodes),
    ensures
        paths_from(events, i, stack, known) == paths_from(
            events,
            i + events_of(nodes).len(),
            stack,
            known + paths_in(steps_of(nodes, path_of(stack))),
        ),
    decreases nodes,
{
    let above = path_of(stack);
    if nodes.len() == 0 {
        assert(known + paths_in(Seq::empty()) =~= known);
    } else {
        let rest = nodes.drop_first();
        let later = events_of(rest);
        let n = events_of(nodes).len() - later.len();
        let first = events_of(nodes).take(n);
        assert(events_of(nodes) =~= first + later);
        lemma_stand_split(first, later, events, i);
        let more = steps_of(rest, above);
        match nodes[0] {
            Xml::Element(tag, inner) => {
                let path = path_below(above, tag);
                let last = Step::End(path, own_text(inner), attribute_values(tag));
                let own = seq![Step::Begin(path)] + steps_of(inner, path) + seq![last];
                let (start, end) = (
                    seq![EventModel::Start(tag)],
                    seq![EventModel::End(tag.name)],
                );
                assert(first =~= start + events_of(inner) + end);
                lemma_stand_split(start + events_of(inner), end, events, i);
                lemma_stand_split(start, events_of(inner), events, i);
                assert(events[i + 0] == start[0]);
                lemma_path_below(stack, tag);
                let deeper = stack.push(tag_text(tag.name));
                lemma_attribute_paths(tag, 0, path, known.insert(path));
                let begun = known.insert(path) + attribute_set(tag, 0, path);
                lemma_paths(events, i + 1, inner, deeper, begun);
                let j = i + 1 + events_of(inner).len();
                assert(events[i + (start + events_of(inner)).len() + 0] == end[0]);
                assert(deeper.drop_last() =~= stack);
                let ended = (begun + paths_in(steps_of(inner, path))).insert(path);
                lemma_paths_in_on(seq![Step::Begin(path)] + steps_of(inner, path), seq![last]);
                lemma_paths_in_on(seq![Step::Begin(path)], steps_of(inner, path));
                lemma_last_paths(tag, path, own_text(inner));
                assert(paths_in(seq![Step::Begin(path)]) =~= Set::empty());
                assert(ended =~= known + paths_in(own));
                lemma_paths(events, i + n, rest, stack, ended);
                lemma_paths_in_on(own, more);
                assert(ended + paths_in(more) =~= known + paths_in(own + more));
            },
            Xml::Empty(tag) => {
                let path = path_below(above, tag);
                let last = Step::End(path, Seq::empty(), attribute_values(tag));
                let own = seq![Step::Begin(path), last];
                assert(events[i + 0] == first[0]);
                lemma_path_below(stack, tag);
                lemma_attribute_paths(tag, 0, path, known.insert(path));
                let next = known.insert(path) + attribute_set(tag, 0, path);
                assert(own =~= seq![Step::Begin(path)] + seq![last]);
                lemma_paths_in_on(seq![Step::Begin(path)], seq![last]);
                lemma_last_paths(tag, path, Seq::empty());
                assert(paths_in(seq![Step::Begin(path)]) =~= Set::empty());
                assert(next =~= known + paths_in(own));
                lemma_paths(events, i + n, rest, stack, next);
                lemma_paths_in_on(own, more);
                assert(next + paths_in(more) =~= known + paths_in(own + more));
            },
            _ => {
                assert(events[i + 0] == first[0]);
                lemma_paths(events, i + n, rest, stack, known);
                assert(Seq::<Step>::empty() + more =~= more);
            },
        }
    }
}

proof fn lemma_last_paths(tag: TagModel, path: Seq<char>, text: Seq<char>)
    ensures
        paths_in(seq![Step::End(path, text, attribute_values(tag))]) == attribute_set(
            tag,
            0,
            path,
        ).insert(path),
{
    let last = Step::End(path, text, attribute_values(tag));
    let s = seq![last];
    assert forall|p: Seq<char>| #[trigger] paths_in(s).contains(p) <==> attribute_set(
        tag,
        0,
        path,
    ).insert(path).contains(p) by {
        if paths_in(s).contains(p) {
            let i = choose|i: int| 0 <= i < s.len() && has_path(#[trigger] s[i], p);
            assert(s[i] == last);
        }
        if p == path {
            assert(has_path(s[0], p));
        } else if attribute_set(tag, 0, path).contains(p) {
            let k = choose|k: int|
                0 <= k < tag.attributes.len() && p == path + seq!['/', '@'] + (
                #[trigger] attribute_values(tag)[k]).0;
            assert(s[0]->End_2[k] == attribute_values(tag)[k]);
            assert(has_path(s[0], p));
        }
    }
    assert(paths_in(s) =~= attribute_set(tag, 0, path).insert(path));
}

/// The paths of a document are those of its elements and of their attributes, and no others.
pub proof fn law_paths_are_those_of_elements(nodes: Seq<Xml>)
    requires
        is_sound(nodes),
    ensures
        document_paths(document_of(nodes)) == Ok::<Set<Seq<char>>, Seq<char>>(
            paths_in(steps_of(nodes, Seq::empty())),
        ),
{
    let events = document_of(nodes);
    let none = Seq::<Seq<char>>::empty();
    assert forall|k: int| 0 <= k < events_of(nodes).len() implies events[0 + k]
        == #[trigger] events_of(nodes)[k] by {}
    lemma_paths(events, 0, nodes, none, Set::empty());
    assert(events[events_of(nodes).len() as int] is Eof);
    let all = paths_in(steps_of(nodes, Seq::empty()));
    assert(Set::empty() + all =~= all);
}

// ---------------------------------------------------------------------------
// Mappings
// ---------------------------------------------------------------------------

/// Whether the entries give each key the value of the last of the given pairs with that key, and
/// hold no others.
pub open spec fn are_last_pairs(
    entries: Seq<(Seq<char>, Seq<char>)>,
    pairs: Seq<(Seq<char>, Seq<char>)>,
) -> bool {
    &&& keys_differ(entries)
    &&& forall|key: Seq<char>, value: Seq<char>| #[trigger]
        entries.contains((key, value)) <==> exists|i: int|
            0 <= i < pairs.len() && #[trigger] pairs[i] == (key, value) && forall|j: int|
                i < j < pairs.len() ==> (#[trigger] pairs[j]).0 != key
}

pub proof fn lemma_set_last(
    entries: Seq<(Seq<char>, Seq<char>)>,
    pairs: Seq<(Seq<char>, Seq<char>)>,
    key: Seq<char>,
    value: Seq<char>,
)
    requires
        are_last_pairs(entries, pairs),
    ensures
        are_last_pairs(with_entry(entries, key, value), pairs.push((key, value))),
{
    let next = with_entry(entries, key, value);
    let more = pairs.push((key, value));
    lemma_set_keys_differ(entries, key, value);
    lemma_entry_index(entries, key);
    let at = entry_index(entries, key) as int;
    assert(next[at] == (key, value));
    assert forall|k: Seq<char>, v: Seq<char>| #[trigger] next.contains((k, v)) <==> exists|i: int|
        0 <= i < more.len() && #[trigger] more[i] == (k, v) && forall|j: int|
            i < j < more.len() ==> (#[trigger] more[j]).0 != k by {
        if k == key {
            assert(more[pairs.len() as int] == (key, value));
            if next.contains((k, v)) {
                let m = choose|m: int| 0 <= m < next.len() && next[m] == (k, v);
                if m != at {
                    if m < at {
                        assert(next[m].0 != next[at].0);
                    } else {
                        assert(next[at].0 != next[m].0);
                    }
                }
                assert(v == value);
            }
            if exists|i: int|
                0 <= i < more.len() && #[trigger] more[i] == (k, v) && forall|j: int|
                    i < j < more.len() ==> (#[trigger] more[j]).0 != k {
                let i = choose|i: int|
                    0 <= i < more.len() && #[trigger] more[i] == (k, v) && forall|j: int|
                        i < j < more.len() ==> (#[trigger] more[j]).0 != k;
                if i < pairs.len() {
                    assert(more[pairs.len() as int].0 == k);
                }
            }
        } else {
            assert(next.contains((k, v)) <==> entries.contains((k, v))) by {
                if next.contains((k, v)) {
                    let m = choose|m: int| 0 <= m < next.len() && next[m] == (k, v);
                    assert(entries[m] == (k, v));
                }
                if entries.contains((k, v)) {
                    let m = choose|m: int| 0 <= m < entries.len() && entries[m] == (k, v);
                    assert(next[m] == (k, v));
                }
            }
            if entries.contains((k, v)) {
                let i = choose|i: int|
                    0 <= i < pairs.len() && #[trigger] pairs[i] == (k, v) && forall|j: int|
                        i < j < pairs.len() ==> (#[trigger] pairs[j]).0 != k;
                assert(more[i] == (k, v));
                assert forall|j: int| i < j < more.len() implies (#[trigger] more[j]).0 != k by {
                    if j < pairs.len() {
                        assert(more[j] == pairs[j]);
                    }
                }
            }
            if exists|i: int|
                0 <= i < more.len() && #[trigger] more[i] == (k, v) && forall|j: int|
                    i < j < more.len() ==> (#[trigger] more[j]).0 != k {
                let i = choose|i: int|
                    0 <= i < more.len() && #[trigger] more[i] == (k, v) && forall|j: int|
                        i < j < more.len() ==> (#[trigger] more[j]).0 != k;
                assert(pairs[i] == (k, v));
                assert forall|j: int| i < j < pairs.len() implies (#[trigger] pairs[j]).0 != k by {
                    assert(more[j] == pairs[j]);
                }
            }
        }
    }
}

/// The paths of a mapping in normal form, each with its column.
pub open spec fn normal_pairs(s: Seq<(Seq<char>, Seq<char>)>) -> Seq<(Seq<char>, Seq<char>)> {
    s.map_values(|e: (Seq<char>, Seq<char>)| (normal_path(e.0), e.1))
}

proof fn lemma_normal(s: Seq<(Seq<char>, Seq<char>)>, n: nat)
    requires
        n <= s.len(),
    ensures
        are_last_pairs(normal_columns(s, n), normal_pairs(s).take(n as int)),
    decreases n,
{
    if n > 0 {
        lemma_normal(s, (n - 1) as nat);
        lemma_set_last(
            normal_columns(s, (n - 1) as nat),
            normal_pairs(s).take(n - 1),
            normal_path(s[n - 1].0),
            s[n - 1].1,
        );
        assert(normal_pairs(s).take(n as int) =~= normal_pairs(s).take(n - 1).push(
            (normal_path(s[n - 1].0), s[n - 1].1),
        ));
    }
}

/// A mapping means its paths in normal form; where two are the same, the later column counts.
pub proof fn law_later_column_counts(s: Seq<(Seq<char>, Seq<char>)>)
    ensures
        are_last_pairs(normal_columns(s, s.len()), normal_pairs(s)),
{
    lemma_normal(s, s.len());
    assert(normal_pairs(s).take(s.len() as int) =~= normal_pairs(s));
}

/// Whether the entries are those of the given ones whose paths a document has.
pub open spec fn are_present(
    entries: Seq<(Seq<char>, Seq<char>)>,
    s: Seq<(Seq<char>, Seq<char>)>,
    paths: Set<Seq<char>>,
) -> bool {
    &&& keys_differ(entries)
    &&& forall|e: (Seq<char>, Seq<char>)| #[trigger]
        entries.contains(e) <==> s.contains(e) && paths.contains(e.0)
}

proof fn lemma_present(s: Seq<(Seq<char>, Seq<char>)>, paths: Set<Seq<char>>, n: nat)
    requires
        keys_differ(s),
        n <= s.len(),
    ensures
        are_present(present_columns(s, paths, n), s.take(n as int), paths),
    decreases n,
{
    if n > 0 {
        lemma_present(s, paths, (n - 1) as nat);
        let earlier = present_columns(s, paths, (n - 1) as nat);
        let part = s.take(n - 1);
        let more = s.take(n as int);
        let (key, value) = s[n - 1];
        let next = present_columns(s, paths, n);
        lemma_set_keys_differ(earlier, key, value);
        lemma_entry_index(earlier, key);
        let at = entry_index(earlier, key) as int;
        assert(more =~= part.push(s[n - 1]));
        if at < earlier.len() {
            assert(earlier.contains(earlier[at]));
            let k = choose|k: int| 0 <= k < part.len() && part[k] == earlier[at];
            assert(s[k].0 == s[n - 1].0);
        }
        assert forall|e: (Seq<char>, Seq<char>)| #[trigger] next.contains(e) <==> more.contains(e)
            && paths.contains(e.0) by {
            assert(earlier.contains(e) <==> part.contains(e) && paths.contains(e.0));
            assert(more.contains(e) <==> part.contains(e) || e == s[n - 1]) by {
                if more.contains(e) {
                    let k = choose|k: int| 0 <= k < more.len() && more[k] == e;
                    if k < n - 1 {
                        assert(part[k] == e);
                    }
                }
                if part.contains(e) {
                    let k = choose|k: int| 0 <= k < part.len() && part[k] == e;
                    assert(more[k] == e);
                }
                assert(more[n - 1] == s[n - 1]);
            }
            if paths.contains(key) {
                assert(next =~= earlier.push((key, value)));
                if next.contains(e) {
                    let k = choose|k: int| 0 <= k < next.len() && next[k] == e;
                    if k < earlier.len() {
                        assert(earlier[k] == e);
                    }
                }
                if earlier.contains(e) {
                    let k = choose|k: int| 0 <= k < earlier.len() && earlier[k] == e;
                    assert(next[k] == e);
                }
                assert(next[earlier.len() as int] == (key, value));
            }
        }
    }
}

/// Whether a path is the first of the given ones that is not empty and that the document has.
pub open spec fn is_first_there(
    path: Option<Seq<char>>,
    list: Seq<Seq<char>>,
    paths: Set<Seq<char>>,
) -> bool {
    match path {
        Some(p) => exists|i: int|
            0 <= i < list.len() && #[trigger] list[i] == p && p.len() > 0 && paths.contains(p)
                && forall|j: int|
                0 <= j < i ==> (#[trigger] list[j]).len() == 0 || !paths.contains(list[j]),
        None => forall|j: int|
            0 <= j < list.len() ==> (#[trigger] list[j]).len() == 0 || !paths.contains(list[j]),
    }
}

proof fn lemma_first_there(list: Seq<Seq<char>>, paths: Set<Seq<char>>, i: int)
    requires
        0 <= i <= list.len(),
        forall|j: int|
            0 <= j < i ==> (#[trigger] list[j]).len() == 0 || !paths.contains(list[j]),
    ensures
        is_first_there(first_existing(list, paths, i), list, paths),
    decreases list.len() - i,
{
    if i < list.len() {
        if list[i].len() > 0 && paths.contains(list[i]) {
            assert(list[i] == first_existing(list, paths, i)->0);
        } else {
            lemma_first_there(list, paths, i + 1);
        }
    }
}

/// Whether a path may be the context of rows that end at `boundary`.
pub open spec fn lies_around(
    path: Seq<char>,
    boundary: Seq<char>,
    paths: Set<Seq<char>>,
) -> bool {
    path.len() > 0 && paths.contains(path) && (boundary == path || (path
        + seq!['/']).is_prefix_of(boundary))
}

/// Whether a context is the first of the given paths around the rows, or else the first that the
/// document has.
pub open spec fn is_context_of(
    context: Option<Seq<char>>,
    list: Seq<Seq<char>>,
    boundary: Seq<char>,
    paths: Set<Seq<char>>,
) -> bool {
    ||| context matches Some(p) && exists|i: int|
        0 <= i < list.len() && #[trigger] list[i] == p && lies_around(p, boundary, paths)
            && forall|j: int| 0 <= j < i ==> !lies_around(#[trigger] list[j], boundary, paths)
    ||| is_first_there(context, list, paths) && forall|j: int|
        0 <= j < list.len() ==> !lies_around(#[trigger] list[j], boundary, paths)
}

proof fn lemma_context(
    list: Seq<Seq<char>>,
    boundary: Seq<char>,
    paths: Set<Seq<char>>,
    i: int,
)
    requires
        0 <= i <= list.len(),
        forall|j: int| 0 <= j < i ==> !lies_around(#[trigger] list[j], boundary, paths),
    ensures
        match first_around(list, boundary, paths, i) {
            Some(p) => is_context_of(Some(p), list, boundary, paths),
            None => forall|j: int|
                0 <= j < list.len() ==> !lies_around(#[trigger] list[j], boundary, paths),
        },
    decreases list.len() - i,
{
    if i < list.len() {
        assert(at_or_below(boundary, list[i]) <==> boundary == list[i] || (list[i]
            + seq!['/']).is_prefix_of(boundary));
        if lies_around(list[i], boundary, paths) {
            assert(list[i] == first_around(list, boundary, paths, i)->0);
        } else {
            lemma_context(list, boundary, paths, i + 1);
        }
    }
}

/// Whether the given tags begin a list of tags.
pub open spec fn begins(tags: Seq<Seq<char>>, list: Seq<Seq<char>>) -> bool {
    tags.len() <= list.len() && list.take(tags.len() as int) == tags
}

/// Whether the tags begin the path of every column that has any.
pub open spec fn begin_all(tags: Seq<Seq<char>>, columns: Seq<(Seq<char>, Seq<char>)>) -> bool {
    forall|i: int|
        0 <= i < columns.len() && path_tags((#[trigger] columns[i]).0).len() > 0 ==> begins(
            tags,
            path_tags(columns[i].0),
        )
}

/// Whether a boundary is the deepest element that all columns stand at or below.
pub open spec fn is_shared_boundary(
    boundary: Seq<char>,
    columns: Seq<(Seq<char>, Seq<char>)>,
) -> bool {
    if forall|i: int| 0 <= i < columns.len() ==> path_tags((#[trigger] columns[i]).0).len() == 0 {
        boundary.len() == 0
    } else {
        exists|tags: Seq<Seq<char>>|
            boundary == #[trigger] path_of(tags) && begin_all(tags, columns) && forall|
                more: Seq<Seq<char>>,
            |
                #[trigger] begin_all(more, columns) ==> more.len() <= tags.len()
    }
}

proof fn lemma_tag_lists(columns: Seq<(Seq<char>, Seq<char>)>, n: nat)
    requires
        n <= columns.len(),
    ensures
        forall|k: int|
            0 <= k < tag_lists(columns, n).len() ==> exists|i: int|
                0 <= i < n && #[trigger] path_tags(columns[i].0) == #[trigger] tag_lists(
                    columns,
                    n,
                )[k] && path_tags(columns[i].0).len() > 0,
        forall|i: int|
            0 <= i < n && path_tags((#[trigger] columns[i]).0).len() > 0 ==> tag_lists(
                columns,
                n,
            ).contains(path_tags(columns[i].0)),
    decreases n,
{
    if n > 0 {
        lemma_tag_lists(columns, (n - 1) as nat);
        let earlier = tag_lists(columns, (n - 1) as nat);
        let all = tag_lists(columns, n);
        let tags = path_tags(columns[n - 1].0);
        assert forall|k: int| 0 <= k < all.len() implies exists|i: int|
            0 <= i < n && #[trigger] path_tags(columns[i].0) == #[trigger] all[k] && path_tags(
                columns[i].0,
            ).len() > 0 by {
            if k < earlier.len() {
                assert(all[k] == earlier[k]);
                let i = choose|i: int|
                    0 <= i < n - 1 && #[trigger] path_tags(columns[i].0) == earlier[k]
                        && path_tags(columns[i].0).len() > 0;
                assert(path_tags(columns[i].0) == all[k]);
            } else {
                assert(path_tags(columns[n - 1].0) == all[k]);
            }
        }
        assert forall|i: int| 0 <= i < n && path_tags((#[trigger] columns[i]).0).len()
            > 0 implies all.contains(path_tags(columns[i].0)) by {
            if i < n - 1 {
                let k = choose|k: int|
                    0 <= k < earlier.len() && earlier[k] == path_tags(columns[i].0);
                assert(all[k] == earlier[k]);
            } else {
                assert(all[earlier.len() as int] == tags);
            }
        }
    }
}

proof fn lemma_shared_len(lists: Seq<Seq<Seq<char>>>, i: int)
    requires
        lists.len() > 0,
        0 <= i <= lists[0].len(),
        forall|k: int| 0 <= k < lists.len() ==> begins(lists[0].take(i), #[trigger] lists[k]),
    ensures
        ({
            let n = shared_len(lists[0], lists, i);
            &&& i <= n <= lists[0].len()
            &&& forall|k: int|
                0 <= k < lists.len() ==> begins(lists[0].take(n), #[trigger] lists[k])
            &&& n < lists[0].len() ==> exists|k: int|
                0 <= k < lists.len() && ((#[trigger] lists[k]).len() <= n || lists[k][n]
                    != lists[0][n])
        }),
    decreases lists[0].len() - i,
{
    let first = lists[0];
    if i < first.len() && all_have(lists, i, first[i]) {
        assert forall|k: int| 0 <= k < lists.len() implies begins(
            first.take(i + 1),
            #[trigger] lists[k],
        ) by {
            assert(begins(first.take(i), lists[k]));
            assert(lists[k].len() > i && lists[k][i] == first[i]);
            assert(lists[k].take(i + 1) =~= lists[k].take(i).push(first[i]));
            assert(first.take(i + 1) =~= first.take(i).push(first[i]));
        }
        lemma_shared_len(lists, i + 1);
    }
}

/// Where nothing says where rows end, they end with the deepest element that all columns stand at
/// or below.
pub proof fn law_boundary_is_shared(columns: Seq<(Seq<char>, Seq<char>)>)
    ensures
        is_shared_boundary(shared_boundary(columns), columns),
{
    let n = columns.len();
    let lists = tag_lists(columns, n);
    lemma_tag_lists(columns, n);
    if lists.len() == 0 {
        assert forall|i: int| 0 <= i < columns.len() implies path_tags(
            (#[trigger] columns[i]).0,
        ).len() == 0 by {
            if path_tags(columns[i].0).len() > 0 {
                assert(lists.contains(path_tags(columns[i].0)));
            }
        }
    } else {
        let first = lists[0];
        assert forall|k: int| 0 <= k < lists.len() implies begins(
            first.take(0),
            #[trigger] lists[k],
        ) by {
            assert(lists[k].take(0) =~= first.take(0));
        }
        lemma_shared_len(lists, 0);
        let len = shared_len(first, lists, 0);
        let tags = first.take(len);
        assert(begin_all(tags, columns)) by {
            assert forall|i: int| 0 <= i < columns.len() && path_tags(
                (#[trigger] columns[i]).0,
            ).len() > 0 implies begins(tags, path_tags(columns[i].0)) by {
                let k = choose|k: int| 0 <= k < lists.len() && lists[k] == path_tags(columns[i].0);
                assert(begins(tags, lists[k]));
            }
        }
        let f = choose|i: int|
            0 <= i < n && #[trigger] path_tags(columns[i].0) == lists[0] && path_tags(
                columns[i].0,
            ).len() > 0;
        assert(path_tags(columns[f].0).len() > 0);
        assert forall|more: Seq<Seq<char>>| #[trigger] begin_all(more, columns) implies more.len()
            <= tags.len() by {
            assert(begins(more, path_tags(columns[f].0)));
            if more.len() > len {
                let k = choose|k: int|
                    0 <= k < lists.len() && ((#[trigger] lists[k]).len() <= len || lists[k][len]
                        != first[len]);
                let i = choose|i: int|
                    0 <= i < n && #[trigger] path_tags(columns[i].0) == lists[k] && path_tags(
                        columns[i].0,
                    ).len() > 0;
                assert(path_tags(columns[i].0).len() > 0);
                assert(begins(more, path_tags(columns[i].0)));
                assert(more[len] == lists[k].take(more.len() as int)[len]);
                assert(more[len] == first.take(more.len() as int)[len]);
            }
        }
        assert(shared_boundary(columns) == path_of(tags));
    }
}

// ---------------------------------------------------------------------------
// Columns
// ---------------------------------------------------------------------------

/// Whether the `i`-th item did not come before.
pub open spec fn is_new(list: Seq<Seq<char>>, i: int) -> bool {
    forall|j: int| 0 <= j < i ==> #[trigger] list[j] != list[i]
}

/// Whether `at` names, in order, the items that did not come before.
pub open spec fn names_new(at: Seq<int>, list: Seq<Seq<char>>) -> bool {
    &&& forall|i: int, j: int| 0 <= i < j < at.len() ==> #[trigger] at[i] < #[trigger] at[j]
    &&& forall|i: int| 0 <= i < at.len() ==> 0 <= #[trigger] at[i] < list.len()
    &&& forall|m: int| 0 <= m < list.len() ==> (#[trigger] is_new(list, m) <==> at.contains(m))
}

/// Whether the items are those of a list, each once, where it first stands.
pub open spec fn are_each_once(items: Seq<Seq<char>>, list: Seq<Seq<char>>) -> bool {
    exists|at: Seq<int>|
        #[trigger] names_new(at, list) && items.len() == at.len() && forall|i: int|
            0 <= i < at.len() ==> #[trigger] items[i] == list[at[i]]
}

proof fn lemma_seen(list: Seq<Seq<char>>, at: Seq<int>, m: int)
    requires
        names_new(at, list),
        0 <= m < list.len(),
    ensures
        exists|i: int| 0 <= i < at.len() && list[#[trigger] at[i]] == list[m],
    decreases m,
{
    if is_new(list, m) {
        assert(at.contains(m));
        let i = choose|i: int| 0 <= i < at.len() && at[i] == m;
        assert(list[at[i]] == list[m]);
    } else {
        let j = choose|j: int| 0 <= j < m && #[trigger] list[j] == list[m];
        lemma_seen(list, at, j);
    }
}

proof fn lemma_each_once(items: Seq<Seq<char>>, list: Seq<Seq<char>>, item: Seq<char>)
    requires
        are_each_once(items, list),
    ensures
        are_each_once(with_item(items, item), list.push(item)),
{
    let at = choose|at: Seq<int>|
        #[trigger] names_new(at, list) && items.len() == at.len() && forall|i: int|
            0 <= i < at.len() ==> #[trigger] items[i] == list[at[i]];
    let more = list.push(item);
    let n = list.len() as int;
    let known = items.contains(item);
    let next = if known {
        at
    } else {
        at.push(n)
    };
    assert forall|m: int| 0 <= m < n implies (#[trigger] is_new(more, m) <==> is_new(list, m)) by {
        assert forall|j: int| 0 <= j <= m implies more[j] == list[j] by {}
        if is_new(list, m) {
            assert forall|j: int| 0 <= j < m implies #[trigger] more[j] != more[m] by {
                assert(list[j] != list[m]);
            }
        }
        if is_new(more, m) {
            assert forall|j: int| 0 <= j < m implies #[trigger] list[j] != list[m] by {
                assert(more[j] != more[m]);
            }
        }
    }
    assert(is_new(more, n) <==> !known) by {
        if known {
            let i = choose|i: int| 0 <= i < items.len() && items[i] == item;
            assert(items[i] == list[at[i]]);
            assert(more[at[i]] == more[n]);
        } else {
            assert forall|j: int| 0 <= j < n implies #[trigger] more[j] != more[n] by {
                if more[j] == more[n] {
                    lemma_seen(list, at, j);
                    let i = choose|i: int| 0 <= i < at.len() && list[#[trigger] at[i]] == list[j];
                    assert(items[i] == item);
                }
            }
        }
    }
    assert forall|m: int| 0 <= m < more.len() implies (#[trigger] is_new(more, m)
        <==> next.contains(m)) by {
        if m < n {
            assert(is_new(list, m) <==> at.contains(m));
            if at.contains(m) {
                let i = choose|i: int| 0 <= i < at.len() && at[i] == m;
                assert(next[i] == m);
            }
            if next.contains(m) {
                let i = choose|i: int| 0 <= i < next.len() && next[i] == m;
                assert(at[i] == m);
            }
        } else {
            if next.contains(m) {
                let i = choose|i: int| 0 <= i < next.len() && next[i] == m;
                if i < at.len() {
                    assert(at[i] < n);
                }
            }
            if !known {
                assert(next[at.len() as int] == n);
            }
        }
    }
    let all = with_item(items, item);
    assert forall|i: int| 0 <= i < next.len() implies #[trigger] all[i] == more[next[i]] by {
        if i < at.len() {
            assert(items[i] == list[at[i]]);
            assert(next[i] == at[i]);
        }
    }
    assert(names_new(next, more));
}

/// The columns of entries.
pub open spec fn columns_of(s: Seq<(Seq<char>, Seq<char>)>) -> Seq<Seq<char>> {
    s.map_values(|e: (Seq<char>, Seq<char>)| e.1)
}

proof fn lemma_columns_once(
    columns: Seq<Seq<char>>,
    list: Seq<Seq<char>>,
    s: Seq<(Seq<char>, Seq<char>)>,
    n: nat,
)
    requires
        are_each_once(columns, list),
        n <= s.len(),
    ensures
        are_each_once(with_columns(columns, s, n), list + columns_of(s).take(n as int)),
    decreases n,
{
    if n > 0 {
        lemma_columns_once(columns, list, s, (n - 1) as nat);
        let part = list + columns_of(s).take(n - 1);
        lemma_each_once(with_columns(columns, s, (n - 1) as nat), part, s[n - 1].1);
        assert(list + columns_of(s).take(n as int) =~= part.push(s[n - 1].1));
    } else {
        assert(list + columns_of(s).take(0) =~= list);
    }
}

pub open spec fn optional(column: Option<Seq<char>>) -> Seq<Seq<char>> {
    match column {
        Some(c) => seq![c],
        None => Seq::empty(),
    }
}

proof fn lemma_optional_once(
    columns: Seq<Seq<char>>,
    list: Seq<Seq<char>>,
    column: Option<Seq<char>>,
)
    requires
        are_each_once(columns, list),
    ensures
        are_each_once(with_optional(columns, column), list + optional(column)),
{
    if let Some(c) = column {
        lemma_each_once(columns, list, c);
        assert(list + optional(column) =~= list.push(c));
    } else {
        assert(list + optional(column) =~= list);
    }
}

/// Whether a table is the one that a mapping means for a document with the given paths. Its columns
/// are those whose paths the document has. Its rows end at the first of the given places that the
/// document has, or where none is given, with the deepest element around all its columns. Its
/// columns come in their order, each once: its own, those it carries, its counters, its name.
pub open spec fn is_resolved(
    r: ResolvedModel,
    spec: NormalizedModel,
    paths: Set<Seq<char>>,
) -> bool {
    &&& r.name == spec.name
    &&& are_present(r.columns, spec.columns, paths)
    &&& r.columns.len() > 0
    &&& are_present(r.carry, spec.carry, paths)
    &&& r.explicit_row_path == spec.explicit_row_path
    &&& if spec.explicit_row_path {
        is_first_there(Some(r.row_boundary), spec.row_paths, paths)
    } else {
        is_shared_boundary(r.row_boundary, r.columns)
    }
    &&& is_context_of(r.context_path, spec.context_paths, r.row_boundary, paths)
    &&& r.row_index_col == spec.row_index_col
    &&& r.context_index_col == spec.context_index_col
    &&& are_each_once(
        r.output_columns,
        columns_of(r.columns) + columns_of(r.carry) + optional(r.row_index_col) + optional(
            r.context_index_col,
        ) + seq!["_table"@],
    )
}

/// Whether a document has none of the columns of a table, or none of the places at which its rows
/// are said to end.
pub open spec fn is_absent(spec: NormalizedModel, paths: Set<Seq<char>>) -> bool {
    ||| forall|i: int|
        0 <= i < spec.columns.len() ==> !paths.contains((#[trigger] spec.columns[i]).0)
    ||| spec.explicit_row_path && is_first_there(None, spec.row_paths, paths)
}

/// A document has the table that a mapping means, unless it has none of its columns or none of the
/// places at which its rows are said to end.
pub proof fn law_tables_are_resolved(spec: NormalizedModel, paths: Set<Seq<char>>)
    requires
        keys_differ(spec.columns),
        keys_differ(spec.carry),
    ensures
        match resolved(spec, paths) {
            Some(r) => is_resolved(r, spec, paths) && columns_agree(r) && paths_differ(r),
            None => is_absent(spec, paths),
        },
{
    let columns = present_columns(spec.columns, paths, spec.columns.len());
    let carry = present_columns(spec.carry, paths, spec.carry.len());
    lemma_present(spec.columns, paths, spec.columns.len());
    lemma_present(spec.carry, paths, spec.carry.len());
    assert(spec.columns.take(spec.columns.len() as int) =~= spec.columns);
    assert(spec.carry.take(spec.carry.len() as int) =~= spec.carry);
    lemma_first_there(spec.row_paths, paths, 0);
    if columns.len() == 0 {
        assert forall|i: int| 0 <= i < spec.columns.len() implies !paths.contains(
            (#[trigger] spec.columns[i]).0,
        ) by {
            if paths.contains(spec.columns[i].0) {
                assert(spec.columns.contains(spec.columns[i]));
                assert(columns.contains(spec.columns[i]));
            }
        }
    }
    if let Some(r) = resolved(spec, paths) {
        lemma_resolved_agrees(spec, paths);
        law_boundary_is_shared(columns);
        lemma_context(spec.context_paths, r.row_boundary, paths, 0);
        lemma_first_there(spec.context_paths, paths, 0);
        let none = Seq::<Seq<char>>::empty();
        assert(are_each_once(none, none)) by {
            assert(names_new(Seq::empty(), none));
        }
        lemma_columns_once(none, none, columns, columns.len());
        let own = with_columns(none, columns, columns.len());
        assert(none + columns_of(columns).take(columns.len() as int) =~= columns_of(columns));
        lemma_columns_once(own, columns_of(columns), carry, carry.len());
        let all = with_columns(own, carry, carry.len());
        assert(columns_of(carry).take(carry.len() as int) =~= columns_of(carry));
        let list = columns_of(columns) + columns_of(carry);
        lemma_optional_once(all, list, r.row_index_col);
        let counted = with_optional(all, r.row_index_col);
        lemma_optional_once(counted, list + optional(r.row_index_col), r.context_index_col);
        let placed = with_optional(counted, r.context_index_col);
        let before = list + optional(r.row_index_col) + optional(r.context_index_col);
        lemma_each_once(placed, before, "_table"@);
        assert(before + seq!["_table"@] =~= before.push("_table"@));
    }
}

// ---------------------------------------------------------------------------
// Tables
// ---------------------------------------------------------------------------

proof fn lemma_normalized(mapping: Seq<(Seq<char>, XmlTableSpec)>, k: int)
    requires
        0 <= k < mapping.len(),
    ensures
        keys_differ(normalized_specs(mapping)[k].columns),
        keys_differ(normalized_specs(mapping)[k].carry),
{
    match mapping[k].1 {
        XmlTableSpec::Legacy(columns) => {
            law_later_column_counts(text_entries(columns));
        },
        XmlTableSpec::Structured(s) => {
            law_later_column_counts(text_entries(s.columns));
            law_later_column_counts(text_entries(s.carry));
        },
    }
}

/// Whether a table of a document holds what the document brings for it.
pub open spec fn holds_document(t: TableModel, steps: Seq<Step>) -> bool {
    exists|at: Seq<int>|
        #[trigger] names_rows(at, t.spec, steps) && at.len() > 0 && rows_hold(
            t.rows,
            at,
            t.spec,
            steps,
        )
}

/// Whether a document brings no row for a table.
pub open spec fn brings_no_row(spec: ResolvedModel, steps: Seq<Step>) -> bool {
    forall|b: int| #[trigger] is_row_end(spec, steps, b) ==> !row_holds(spec, steps, b)
}

/// Whether the `k`-th table of a mapping is absent from a document, or the document brings no row
/// for it.
pub open spec fn is_left_out(
    spec: NormalizedModel,
    paths: Set<Seq<char>>,
    steps: Seq<Step>,
) -> bool {
    is_absent(spec, paths) || exists|r: ResolvedModel|
        #[trigger] is_resolved(r, spec, paths) && brings_no_row(r, steps)
}

/// Whether the tables are those of a mapping that a document has and brings rows for, in order.
pub open spec fn are_tables_of(
    tables: Seq<TableModel>,
    at: Seq<int>,
    specs: Seq<NormalizedModel>,
    steps: Seq<Step>,
) -> bool {
    &&& tables.len() == at.len()
    &&& forall|i: int, j: int| 0 <= i < j < at.len() ==> #[trigger] at[i] < #[trigger] at[j]
    &&& forall|i: int|
        0 <= i < at.len() ==> 0 <= #[trigger] at[i] < specs.len() && is_resolved(
            tables[i].spec,
            specs[at[i]],
            paths_in(steps),
        ) && holds_document(tables[i], steps)
    &&& forall|k: int|
        0 <= k < specs.len() && !at.contains(k) ==> is_left_out(
            #[trigger] specs[k],
            paths_in(steps),
            steps,
        )
}

/// The tables with rows that the first `n` tables of a mapping make.
spec fn made(
    specs: Seq<NormalizedModel>,
    paths: Set<Seq<char>>,
    steps: Seq<Step>,
    n: nat,
) -> Seq<TableModel> {
    let tables = resolved_specs(specs, paths, n).map_values(
        |s: ResolvedModel| table_ended(run(fresh_table(s), steps)),
    );
    filled_tables(tables, tables.len())
}

proof fn lemma_filled_push(tables: Seq<TableModel>, t: TableModel, n: nat)
    requires
        n <= tables.len(),
    ensures
        filled_tables(tables.push(t), n) == filled_tables(tables, n),
        filled_tables(tables.push(t), tables.len() + 1) == (if t.rows.len() > 0 {
            filled_tables(tables.push(t), tables.len()).push(t)
        } else {
            filled_tables(tables.push(t), tables.len())
        }),
    decreases n,
{
    let more = tables.push(t);
    assert(more[tables.len() as int] == t);
    if n > 0 {
        lemma_filled_push(tables, t, (n - 1) as nat);
        assert(more[n - 1] == tables[n - 1]);
    }
}

proof fn lemma_made(
    specs: Seq<NormalizedModel>,
    steps: Seq<Step>,
    n: nat,
) -> (at: Seq<int>)
    requires
        n <= specs.len(),
        forall|k: int|
            0 <= k < specs.len() ==> keys_differ((#[trigger] specs[k]).columns) && keys_differ(
                specs[k].carry,
            ),
    ensures
        are_tables_of(made(specs, paths_in(steps), steps, n), at, specs.take(n as int), steps),
    decreases n,
{
    let paths = paths_in(steps);
    if n == 0 {
        Seq::empty()
    } else {
        let m = (n - 1) as nat;
        let before = lemma_made(specs, steps, m);
        let part = specs.take(m as int);
        let more = specs.take(n as int);
        let spec = specs[n - 1];
        assert(keys_differ(spec.columns) && keys_differ(spec.carry));
        law_tables_are_resolved(spec, paths);
        let earlier = resolved_specs(specs, paths, m).map_values(
            |s: ResolvedModel| table_ended(run(fresh_table(s), steps)),
        );
        let tables = resolved_specs(specs, paths, n).map_values(
            |s: ResolvedModel| table_ended(run(fresh_table(s), steps)),
        );
        let old = made(specs, paths, steps, m);
        let new = made(specs, paths, steps, n);
        let at = match resolved(spec, paths) {
            None => before,
            Some(r) => {
                let t = table_ended(run(fresh_table(r), steps));
                assert(tables =~= earlier.push(t));
                lemma_filled_push(earlier, t, earlier.len());
                law_rows_hold_what_elements_hold(r, steps);
                let rows = choose|rows: Seq<int>|
                    #[trigger] names_rows(rows, r, steps) && rows_hold(t.rows, rows, r, steps);
                lemma_spec_stays(r, steps);
                if t.rows.len() > 0 {
                    assert(holds_document(t, steps)) by {
                        assert(names_rows(rows, t.spec, steps));
                    }
                    before.push(n - 1)
                } else {
                    assert forall|b: int| #[trigger] is_row_end(r, steps, b) implies !row_holds(
                        r,
                        steps,
                        b,
                    ) by {
                        assert(!rows.contains(b));
                    }
                    assert(is_left_out(spec, paths, steps)) by {
                        assert(is_resolved(r, spec, paths));
                    }
                    before
                }
            },
        };
        if resolved(spec, paths) is None {
            assert(tables =~= earlier);
        }
        assert forall|i: int| 0 <= i < at.len() implies 0 <= #[trigger] at[i] < more.len()
            && is_resolved(new[i].spec, more[at[i]], paths) && holds_document(new[i], steps) by {
            if i < before.len() {
                assert(at[i] == before[i]);
                assert(new[i] == old[i]);
                assert(part[before[i]] == more[at[i]]);
            }
        }
        assert forall|k: int| 0 <= k < more.len() && !at.contains(k) implies is_left_out(
            #[trigger] more[k],
            paths,
            steps,
        ) by {
            if k < m {
                assert(part[k] == more[k]);
                if before.contains(k) {
                    let i = choose|i: int| 0 <= i < before.len() && before[i] == k;
                    assert(at[i] == k);
                }
            } else if at.len() > before.len() {
                assert(at[before.len() as int] == k);
            }
        }
        assert forall|i: int, j: int| 0 <= i < j < at.len() implies #[trigger] at[i]
            < #[trigger] at[j] by {
            assert(at[i] == before[i]);
            if j < before.len() {
                assert(at[j] == before[j]);
            }
        }
        at
    }
}

/// A document is read into the tables of a mapping that it has and brings rows for, in the order of
/// the mapping. Each row holds, under each column, all that the document brings at the paths of the
/// column between the row before it and its own end: the texts of elements and the values of
/// attributes, whether or not the element has both.
pub proof fn law_tables_hold_what_documents_hold(
    nodes: Seq<Xml>,
    mapping: Seq<(Seq<char>, XmlTableSpec)>,
)
    requires
        is_sound(nodes),
    ensures
        document_tables(document_of(nodes), mapping) matches Ok(tables) && exists|at: Seq<int>|
            #[trigger] are_tables_of(
                tables,
                at,
                normalized_specs(mapping),
                steps_of(nodes, Seq::empty()),
            ),
{
    let steps = steps_of(nodes, Seq::empty());
    let events = document_of(nodes);
    let specs = normalized_specs(mapping);
    law_paths_are_those_of_elements(nodes);
    let paths = paths_in(steps);
    let chosen = resolved_specs(specs, paths, specs.len());
    let fresh = chosen.map_values(|s: ResolvedModel| fresh_table(s));
    law_tables_follow_steps(nodes, fresh);
    let read = all_run(fresh, steps);
    let ended = read.map_values(|t: TableModel| table_ended(t));
    let direct = chosen.map_values(|s: ResolvedModel| table_ended(run(fresh_table(s), steps)));
    assert(ended =~= direct);
    assert forall|k: int| 0 <= k < specs.len() implies keys_differ((#[trigger] specs[k]).columns)
        && keys_differ(specs[k].carry) by {
        lemma_normalized(mapping, k);
    }
    let at = lemma_made(specs, steps, specs.len());
    assert(specs.take(specs.len() as int) =~= specs);
    let tables = made(specs, paths, steps, specs.len());
    assert(tables == filled_tables(direct, direct.len()));
    assert(resolved_tables(events, chosen) == Ok::<Seq<TableModel>, Seq<char>>(tables));
    assert(document_tables(events, mapping) == Ok::<Seq<TableModel>, Seq<char>>(tables));
    assert(are_tables_of(document_tables(events, mapping)->Ok_0, at, specs, steps));
}

// ---------------------------------------------------------------------------
// Normal form
// ---------------------------------------------------------------------------

/// Whether a text holds no capitals.
pub open spec fn is_small(s: Seq<char>) -> bool {
    forall|i: int| 0 <= i < s.len() ==> !('A' <= #[trigger] s[i] <= 'Z')
}

/// Tags and attributes are written without capitals, so that their case does not matter.
pub proof fn law_tags_are_small(name: Seq<u8>)
    ensures
        is_small(tag_text(name)),
        is_small(attribute_text(name)),
{
}

/// A path of a mapping in normal form holds no capitals and begins at the root; it is the trimmed
/// path but for that, and empty where that is blank.
pub proof fn law_paths_begin_at_root(path: Seq<char>)
    ensures
        ({
            let p = normal_path(path);
            &&& is_small(p)
            &&& p.len() > 0 ==> p[0] == '/'
            &&& exists|t: Seq<char>|
                #[trigger] is_trim_of(t, path) && {
                    ||| t.len() == 0 && p.len() == 0
                    ||| t.len() > 0 && t[0] == '/' && p == lower(t)
                    ||| t.len() > 0 && t[0] != '/' && p == seq!['/'] + lower(t)
                }
        }),
{
    law_trim(path);
    let t = trim(path);
    assert(is_trim_of(t, path));
    if t.len() > 0 && t[0] != '/' {
        assert(lower(seq!['/'] + t) =~= seq!['/'] + lower(t));
    }
}

// ---------------------------------------------------------------------------
// Tags of paths
// ---------------------------------------------------------------------------

/// Whether a text may stand as a tag in a path.
pub open spec fn is_tag_name(tag: Seq<char>) -> bool {
    tag.len() > 0 && tag[0] != '@' && !tag.contains('/')
}

pub open spec fn are_tag_names(tags: Seq<Seq<char>>) -> bool {
    forall|i: int| 0 <= i < tags.len() ==> is_tag_name(#[trigger] tags[i])
}

proof fn lemma_split_piece(a: Seq<char>, p: Seq<char>, c: char)
    requires
        !p.contains(c),
    ensures
        split(p, c) == seq![p],
        split(a + seq![c] + p, c) == split(a, c).push(p),
    decreases p.len(),
{
    let all = a + seq![c] + p;
    if p.len() == 0 {
        assert(all.drop_last() =~= a);
        assert(p =~= Seq::empty());
    } else {
        let q = p.drop_last();
        assert(p[p.len() - 1] == p.last());
        assert(p.last() != c);
        if q.contains(c) {
            let i = choose|i: int| 0 <= i < q.len() && q[i] == c;
            assert(p[i] == c);
        }
        lemma_split_piece(a, q, c);
        assert(all.drop_last() =~= a + seq![c] + q);
        assert(q.push(p.last()) =~= p);
        assert(split(p, c) =~= seq![p]);
        assert(split(all, c) =~= split(a, c).push(p));
    }
}

proof fn lemma_split_joined(tags: Seq<Seq<char>>)
    requires
        tags.len() > 0,
        are_tag_names(tags),
    ensures
        split(join(tags, seq!['/']), '/') == tags,
    decreases tags.len(),
{
    let last = tags.last();
    assert(is_tag_name(tags[tags.len() - 1]));
    if tags.len() == 1 {
        lemma_split_piece(Seq::empty(), last, '/');
        assert(tags =~= seq![last]);
    } else {
        let front = tags.drop_last();
        assert forall|i: int| 0 <= i < front.len() implies is_tag_name(#[trigger] front[i]) by {
            assert(front[i] == tags[i]);
        }
        lemma_split_joined(front);
        lemma_split_piece(join(front, seq!['/']), last, '/');
        assert(front.push(last) =~= tags);
    }
}

proof fn lemma_joined_ends(tags: Seq<Seq<char>>)
    requires
        tags.len() > 0,
        are_tag_names(tags),
    ensures
        ({
            let j = join(tags, seq!['/']);
            &&& j.len() > 0
            &&& j[0] == tags[0][0]
            &&& j.last() == tags.last().last()
            &&& j[0] != '/'
            &&& j.last() != '/'
            &&& forall|k: int| 0 <= k && k + 1 < j.len() && #[trigger] j[k] == '/' ==> j[k + 1]
                != '@'
        }),
    decreases tags.len(),
{
    let last = tags.last();
    assert(is_tag_name(tags[tags.len() - 1]));
    assert(is_tag_name(tags[0]));
    assert forall|i: int| 0 <= i < last.len() implies #[trigger] last[i] != '/' by {
        assert(last.contains(last[i]));
    }
    assert(tags[0].contains(tags[0][0]));
    let j = join(tags, seq!['/']);
    if tags.len() > 1 {
        let front = tags.drop_last();
        assert forall|i: int| 0 <= i < front.len() implies is_tag_name(#[trigger] front[i]) by {
            assert(front[i] == tags[i]);
        }
        lemma_joined_ends(front);
        let f = join(front, seq!['/']);
        assert(j == f + seq!['/'] + last);
        assert forall|k: int| 0 <= k && k + 1 < j.len() && #[trigger] j[k] == '/' implies j[k + 1]
            != '@' by {
            if k + 1 < f.len() {
                assert(f[k] == '/');
                assert(j[k + 1] == f[k + 1]);
            } else if k < f.len() {
                assert(j[k] == f.last());
            } else if k == f.len() {
                assert(j[k + 1] == last[0]);
            } else {
                assert(j[k] == last[k - f.len() - 1]);
            }
        }
    }
}

proof fn lemma_nonempty(tags: Seq<Seq<char>>)
    requires
        are_tag_names(tags),
    ensures
        nonempty_parts(tags) == tags,
    decreases tags.len(),
{
    if tags.len() > 0 {
        let front = tags.drop_last();
        assert forall|i: int| 0 <= i < front.len() implies is_tag_name(#[trigger] front[i]) by {
            assert(front[i] == tags[i]);
        }
        lemma_nonempty(front);
        assert(is_tag_name(tags[tags.len() - 1]));
        assert(front.push(tags.last()) =~= tags);
    }
}

/// The tags of the path of an element are those that lead to it, and so are those of the paths of
/// its attributes.
pub proof fn law_paths_give_tags(tags: Seq<Seq<char>>, name: Seq<char>)
    requires
        tags.len() > 0,
        are_tag_names(tags),
    ensures
        path_tags(path_of(tags)) == tags,
        path_tags(path_of(tags) + seq!['/', '@'] + name) == tags,
{
    let path = path_of(tags);
    let j = join(tags, seq!['/']);
    let mark = seq!['/', '@'];
    lemma_joined_ends(tags);
    lemma_split_joined(tags);
    lemma_nonempty(tags);
    assert(path == seq!['/'] + j);
    assert forall|k: int| 0 <= k && k + 1 < path.len() && #[trigger] path[k] == '/' implies path[k
        + 1] != '@' by {
        if k > 0 {
            assert(path[k] == j[k - 1]);
            assert(path[k + 1] == j[k]);
        } else {
            assert(path[1] == j[0]);
            assert(is_tag_name(tags[0]));
        }
    }
    // The path itself holds no mark of an attribute.
    law_find_is_first(path, mark);
    if let Some(n) = find(path, mark) {
        let k = n as int;
        assert(path.subrange(k, k + 2)[0] == path[k] && path.subrange(k, k + 2)[1] == path[k + 1]);
    }
    assert(element_path(path) == path);
    let whole = path + mark + name;
    let n = path.len() as int;
    law_find_is_first(whole, mark);
    assert(whole.subrange(n, n + 2) =~= mark);
    assert(stands_in(mark, whole, n));
    if let Some(m) = find(whole, mark) {
        let k = m as int;
        assert(whole.subrange(k, k + 2)[0] == whole[k]);
        assert(whole.subrange(k, k + 2)[1] == whole[k + 1]);
        if k < n {
            assert(path[k] == '/');
            if k + 1 == n {
                assert(path.last() == j.last());
            } else {
                assert(path[k + 1] == whole[k + 1]);
            }
        }
    }
    assert(whole.take(n) =~= path);
    assert(element_path(whole) == path);
    // Without the slash at its front the path is the tags with slashes between them.
    let class = CharClass::Only('/');
    assert(path.drop_first() =~= j);
    assert(drop_leading(path, class) == drop_leading(j, class));
    assert(drop_leading(j, class) == j);
    assert(drop_trailing(j, class) == j);
}

} // verus!
