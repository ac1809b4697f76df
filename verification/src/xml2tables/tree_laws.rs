//! What a document does to tables, told from its elements.
use vstd::prelude::*;

use crate::encoding::utf8_lossy;
use crate::xml::{EventModel, TagModel};
use crate::xml2tables::parser::{
    element_begun, element_ended, frame_tags, new_frame, stack_path, tables_from, tag_attributes,
    tag_attributes_from, takes_text, with_child, with_text, FrameModel,
};
use crate::xml2tables::paths::{attribute_text, path_of, tag_text};
use crate::xml2tables::tables::TableModel;

verus! {

// ---------------------------------------------------------------------------
// Documents
// ---------------------------------------------------------------------------

/// A piece of a document.
pub enum Xml {
    Element(TagModel, Seq<Xml>),
    /// An element that its own tag ends.
    Empty(TagModel),
    Text(Seq<char>),
    CData(Seq<u8>),
    /// A comment or a declaration.
    Other,
}

/// The events of the given pieces.
pub open spec fn events_of(nodes: Seq<Xml>) -> Seq<EventModel>
    decreases nodes,
{
    if nodes.len() == 0 {
        Seq::empty()
    } else {
        (match nodes[0] {
            Xml::Element(tag, inner) => seq![EventModel::Start(tag)] + events_of(inner) + seq![
                EventModel::End(tag.name),
            ],
            Xml::Empty(tag) => seq![EventModel::Empty(tag)],
            Xml::Text(s) => seq![EventModel::Text(Ok(s))],
            Xml::CData(b) => seq![EventModel::CData(b)],
            Xml::Other => seq![EventModel::Other],
        }) + events_of(nodes.drop_first())
    }
}

/// Whether no attribute of a tag is malformed.
pub open spec fn is_sound_tag(tag: TagModel) -> bool {
    forall|i: int|
        0 <= i < tag.attributes.len() ==> (#[trigger] tag.attributes[i] matches Ok(a)
            && a.value is Ok)
}

/// Whether no tag is malformed.
pub open spec fn is_sound(nodes: Seq<Xml>) -> bool
    decreases nodes,
{
    nodes.len() > 0 ==> {
        &&& match nodes[0] {
            Xml::Element(tag, inner) => is_sound_tag(tag) && is_sound(inner),
            Xml::Empty(tag) => is_sound_tag(tag),
            _ => true,
        }
        &&& is_sound(nodes.drop_first())
    }
}

/// The attributes of a tag in order: their names in small letters and their values.
pub open spec fn attribute_values(tag: TagModel) -> Seq<(Seq<char>, Seq<char>)> {
    Seq::new(
        tag.attributes.len(),
        |i: int|
            (
                attribute_text(tag.attributes[i]->Ok_0.key),
                tag.attributes[i]->Ok_0.value->Ok_0,
            ),
    )
}

pub open spec fn is_element(node: Xml) -> bool {
    node is Element || node is Empty
}

pub open spec fn has_element(nodes: Seq<Xml>) -> bool {
    exists|i: int| 0 <= i < nodes.len() && is_element(#[trigger] nodes[i])
}

/// The text of an element: what stands in it before the first element inside.
pub open spec fn own_text(nodes: Seq<Xml>) -> Seq<char>
    decreases nodes,
{
    if nodes.len() == 0 || is_element(nodes[0]) {
        Seq::empty()
    } else {
        (match nodes[0] {
            Xml::Text(s) => s,
            Xml::CData(b) => utf8_lossy(b),
            _ => Seq::empty(),
        }) + own_text(nodes.drop_first())
    }
}

// ---------------------------------------------------------------------------
// Steps
// ---------------------------------------------------------------------------

/// What a table sees of a document: where elements begin, and where they end, with their text and
/// their attributes.
pub enum Step {
    Begin(Seq<char>),
    End(Seq<char>, Seq<char>, Seq<(Seq<char>, Seq<char>)>),
}

/// The path of an element inside the one at the given path.
pub open spec fn path_below(above: Seq<char>, tag: TagModel) -> Seq<char> {
    above + seq!['/'] + tag_text(tag.name)
}

/// The steps of the given pieces inside the element at the given path.
pub open spec fn steps_of(nodes: Seq<Xml>, above: Seq<char>) -> Seq<Step>
    decreases nodes,
{
    if nodes.len() == 0 {
        Seq::empty()
    } else {
        (match nodes[0] {
            Xml::Element(tag, inner) => {
                let path = path_below(above, tag);
                seq![Step::Begin(path)] + steps_of(inner, path) + seq![
                    Step::End(path, own_text(inner), attribute_values(tag)),
                ]
            },
            Xml::Empty(tag) => {
                let path = path_below(above, tag);
                seq![
                    Step::Begin(path),
                    Step::End(path, Seq::empty(), attribute_values(tag)),
                ]
            },
            _ => Seq::empty(),
        }) + steps_of(nodes.drop_first(), above)
    }
}

/// A table after a step.
pub open spec fn stepped(t: TableModel, step: Step) -> TableModel {
    match step {
        Step::Begin(path) => element_begun(t, path),
        Step::End(path, text, attributes) => element_ended(
            t,
            path,
            FrameModel { tag: Seq::empty(), attributes, text, has_child: false },
        ),
    }
}

/// A table after the given steps.
pub open spec fn run(t: TableModel, steps: Seq<Step>) -> TableModel
    decreases steps.len(),
{
    if steps.len() == 0 {
        t
    } else {
        stepped(run(t, steps.drop_last()), steps.last())
    }
}

pub open spec fn all_run(tables: Seq<TableModel>, steps: Seq<Step>) -> Seq<TableModel> {
    tables.map_values(|t: TableModel| run(t, steps))
}

proof fn lemma_run_on(t: TableModel, a: Seq<Step>, b: Seq<Step>)
    ensures
        run(t, a + b) == run(run(t, a), b),
    decreases b.len(),
{
    if b.len() == 0 {
        assert(a + b =~= a);
    } else {
        lemma_run_on(t, a, b.drop_last());
        assert((a + b).drop_last() =~= a + b.drop_last());
        assert((a + b).last() == b.last());
    }
}

proof fn lemma_all_run_on(tables: Seq<TableModel>, a: Seq<Step>, b: Seq<Step>)
    ensures
        all_run(tables, a + b) == all_run(all_run(tables, a), b),
{
    assert forall|k: int| 0 <= k < tables.len() implies all_run(tables, a + b)[k] == all_run(
        all_run(tables, a),
        b,
    )[k] by {
        lemma_run_on(tables[k], a, b);
    }
    assert(all_run(tables, a + b) =~= all_run(all_run(tables, a), b));
}

proof fn lemma_run_one(t: TableModel, step: Step)
    ensures
        run(t, seq![step]) == stepped(t, step),
{
    assert(seq![step].drop_last() =~= Seq::empty());
    assert(run(t, seq![step].drop_last()) == t);
}

proof fn lemma_attribute_values(tag: TagModel, i: int)
    requires
        is_sound_tag(tag),
        0 <= i <= tag.attributes.len(),
    ensures
        tag_attributes_from(tag.attributes, i, attribute_values(tag).take(i)) == Ok::<
            Seq<(Seq<char>, Seq<char>)>,
            Seq<char>,
        >(attribute_values(tag)),
    decreases tag.attributes.len() - i,
{
    let all = attribute_values(tag);
    if i < tag.attributes.len() {
        assert(tag.attributes[i] matches Ok(a) && a.value is Ok);
        assert(all.take(i + 1) =~= all.take(i).push(all[i]));
        lemma_attribute_values(tag, i + 1);
    } else {
        assert(all.take(i) =~= all);
    }
}

proof fn lemma_path(stack: Seq<FrameModel>, frame: FrameModel)
    ensures
        stack_path(stack.push(frame)) == stack_path(stack) + seq!['/'] + frame.tag,
        stack_path(with_child(stack)) == stack_path(stack),
        stack_path(with_child(stack).push(frame)) == stack_path(stack) + seq!['/'] + frame.tag,
{
    let tags = frame_tags(stack);
    assert(frame_tags(stack.push(frame)) =~= tags.push(frame.tag));
    assert(tags.push(frame.tag).drop_last() =~= tags);
    assert(frame_tags(with_child(stack)) =~= tags);
    assert(frame_tags(with_child(stack).push(frame)) =~= tags.push(frame.tag));
    assert(path_of(tags.push(frame.tag)) =~= path_of(tags) + seq!['/'] + frame.tag);
}

/// The elements around a place behind the given pieces.
spec fn behind(stack: Seq<FrameModel>, nodes: Seq<Xml>) -> Seq<FrameModel> {
    if stack.len() == 0 {
        stack
    } else {
        let f = stack.last();
        stack.drop_last().push(
            FrameModel {
                text: if f.has_child {
                    f.text
                } else {
                    f.text + own_text(nodes)
                },
                has_child: f.has_child || has_element(nodes),
                ..f
            },
        )
    }
}

proof fn lemma_has_element(nodes: Seq<Xml>)
    requires
        nodes.len() > 0,
    ensures
        has_element(nodes) <==> is_element(nodes[0]) || has_element(nodes.drop_first()),
{
    let rest = nodes.drop_first();
    if has_element(nodes) && !is_element(nodes[0]) {
        let i = choose|i: int| 0 <= i < nodes.len() && is_element(#[trigger] nodes[i]);
        assert(rest[i - 1] == nodes[i]);
    }
    if has_element(rest) {
        let i = choose|i: int| 0 <= i < rest.len() && is_element(#[trigger] rest[i]);
        assert(nodes[i + 1] == rest[i]);
    }
}

proof fn lemma_behind(stack: Seq<FrameModel>, nodes: Seq<Xml>)
    requires
        nodes.len() > 0,
    ensures
        is_element(nodes[0]) ==> behind(with_child(stack), nodes.drop_first()) == behind(
            stack,
            nodes,
        ),
        nodes[0] is Other ==> behind(stack, nodes.drop_first()) == behind(stack, nodes),
        nodes[0] matches Xml::Text(s) ==> behind(
            if takes_text(stack) {
                with_text(stack, s)
            } else {
                stack
            },
            nodes.drop_first(),
        ) == behind(stack, nodes),
        nodes[0] matches Xml::CData(b) ==> behind(
            if takes_text(stack) {
                with_text(stack, utf8_lossy(b))
            } else {
                stack
            },
            nodes.drop_first(),
        ) == behind(stack, nodes),
{
    lemma_has_element(nodes);
    if stack.len() > 0 {
        let f = stack.last();
        let rest = own_text(nodes.drop_first());
        assert(with_child(stack).drop_last() =~= stack.drop_last());
        assert(f.text + Seq::<char>::empty() =~= f.text);
        assert(Seq::<char>::empty() + rest =~= rest);
        if let Xml::Text(s) = nodes[0] {
            assert(with_text(stack, s).drop_last() =~= stack.drop_last());
            assert(f.text + s + rest =~= f.text + (s + rest));
        }
        if let Xml::CData(b) = nodes[0] {
            assert(with_text(stack, utf8_lossy(b)).drop_last() =~= stack.drop_last());
            assert(f.text + utf8_lossy(b) + rest =~= f.text + (utf8_lossy(b) + rest));
        }
    }
}

/// Whether the given events stand among others from the `i`-th on.
pub open spec fn stand_at(part: Seq<EventModel>, events: Seq<EventModel>, i: int) -> bool {
    &&& 0 <= i
    &&& i + part.len() <= events.len()
    &&& forall|k: int| 0 <= k < part.len() ==> events[i + k] == #[trigger] part[k]
}

pub proof fn lemma_stand_split(
    a: Seq<EventModel>,
    b: Seq<EventModel>,
    events: Seq<EventModel>,
    i: int,
)
    requires
        stand_at(a + b, events, i),
    ensures
        stand_at(a, events, i),
        stand_at(b, events, i + a.len()),
{
    let all = a + b;
    assert forall|k: int| 0 <= k < a.len() implies events[i + k] == #[trigger] a[k] by {
        assert(all[k] == a[k]);
    }
    assert forall|k: int| 0 <= k < b.len() implies events[i + a.len() + k] == #[trigger] b[k] by {
        assert(all[a.len() + k] == b[k]);
        assert(events[i + (a.len() + k)] == all[a.len() + k]);
    }
}

#[verifier::rlimit(60)]
proof fn lemma_steps(
    events: Seq<EventModel>,
    i: int,
    nodes: Seq<Xml>,
    stack: Seq<FrameModel>,
    tables: Seq<TableModel>,
)
    requires
        stand_at(events_of(nodes), events, i),
        is_sound(nodes),
    ensures
        tables_from(events, i, stack, tables) == tables_from(
            events,
            i + events_of(nodes).len(),
            behind(stack, nodes),
            all_run(tables, steps_of(nodes, stack_path(stack))),
        ),
    decreases nodes, 0nat,
{
    let above = stack_path(stack);
    if nodes.len() == 0 {
        assert(all_run(tables, Seq::empty()) =~= tables);
        if stack.len() > 0 {
            let f = stack.last();
            assert(f.text + own_text(nodes) =~= f.text);
            assert(behind(stack, nodes) =~= stack);
        }
    } else {
        let rest = nodes.drop_first();
        let later = events_of(rest);
        let n = events_of(nodes).len() - later.len();
        let first = events_of(nodes).take(n);
        assert(events_of(nodes) =~= first + later);
        lemma_stand_split(first, later, events, i);
        lemma_behind(stack, nodes);
        let more = steps_of(rest, above);
        match nodes[0] {
            Xml::Element(tag, inner) => {
                let path = path_below(above, tag);
                let own = seq![Step::Begin(path)] + steps_of(inner, path) + seq![
                    Step::End(path, own_text(inner), attribute_values(tag)),
                ];
                assert(first =~= seq![EventModel::Start(tag)] + events_of(inner) + seq![
                    EventModel::End(tag.name),
                ]);
                lemma_element(events, i, tag, inner, stack, tables);
                lemma_path(stack, new_frame(tag, attribute_values(tag)));
                lemma_steps(events, i + n, rest, with_child(stack), all_run(tables, own));
                lemma_all_run_on(tables, own, more);
            },
            Xml::Empty(tag) => {
                lemma_attribute_values(tag, 0);
                let frame = new_frame(tag, attribute_values(tag));
                assert(attribute_values(tag).take(0) =~= Seq::empty());
                lemma_path(stack, frame);
                let path = path_below(above, tag);
                let own = seq![
                    Step::Begin(path),
                    Step::End(path, Seq::empty(), attribute_values(tag)),
                ];
                assert(events[i + 0] == first[0]);
                let next = tables.map_values(
                    |x: TableModel| element_ended(element_begun(x, path), path, frame),
                );
                assert forall|k: int| 0 <= k < tables.len() implies next[k] == all_run(
                    tables,
                    own,
                )[k] by {
                    lemma_run_on(tables[k], seq![own[0]], seq![own[1]]);
                    assert(seq![own[0]] + seq![own[1]] =~= own);
                    lemma_run_one(tables[k], own[0]);
                    lemma_run_one(stepped(tables[k], own[0]), own[1]);
                }
                assert(next =~= all_run(tables, own));
                assert(tables_from(events, i, stack, tables) == tables_from(
                    events,
                    i + 1,
                    with_child(stack),
                    next,
                ));
                lemma_steps(events, i + n, rest, with_child(stack), next);
                lemma_all_run_on(tables, own, more);
            },
            Xml::Text(s) => {
                assert(events[i + 0] == first[0]);
                let next = if takes_text(stack) {
                    with_text(stack, s)
                } else {
                    stack
                };
                assert(frame_tags(next) =~= frame_tags(stack));
                lemma_steps(events, i + n, rest, next, tables);
                assert(Seq::<Step>::empty() + more =~= more);
            },
            Xml::CData(b) => {
                assert(events[i + 0] == first[0]);
                let next = if takes_text(stack) {
                    with_text(stack, utf8_lossy(b))
                } else {
                    stack
                };
                assert(frame_tags(next) =~= frame_tags(stack));
                lemma_steps(events, i + n, rest, next, tables);
                assert(Seq::<Step>::empty() + more =~= more);
            },
            Xml::Other => {
                assert(events[i + 0] == first[0]);
                lemma_steps(events, i + n, rest, stack, tables);
                assert(Seq::<Step>::empty() + more =~= more);
            },
        }
    }
}

#[verifier::rlimit(60)]
proof fn lemma_element(
    events: Seq<EventModel>,
    i: int,
    tag: TagModel,
    inner: Seq<Xml>,
    stack: Seq<FrameModel>,
    tables: Seq<TableModel>,
)
    requires
        stand_at(
            seq![EventModel::Start(tag)] + events_of(inner) + seq![EventModel::End(tag.name)],
            events,
            i,
        ),
        is_sound_tag(tag),
        is_sound(inner),
    ensures
        ({
            let path = path_below(stack_path(stack), tag);
            tables_from(events, i, stack, tables) == tables_from(
                events,
                i + events_of(inner).len() + 2,
                with_child(stack),
                all_run(
                    tables,
                    seq![Step::Begin(path)] + steps_of(inner, path) + seq![
                        Step::End(path, own_text(inner), attribute_values(tag)),
                    ],
                ),
            )
        }),
    decreases inner, 1nat,
{
    let path = path_below(stack_path(stack), tag);
    let start = seq![EventModel::Start(tag)];
    let end = seq![EventModel::End(tag.name)];
    lemma_stand_split(start + events_of(inner), end, events, i);
    lemma_stand_split(start, events_of(inner), events, i);
    assert(events[i + 0] == start[0]);
    lemma_attribute_values(tag, 0);
    assert(attribute_values(tag).take(0) =~= Seq::empty());
    let frame = new_frame(tag, attribute_values(tag));
    lemma_path(stack, frame);
    let deeper = with_child(stack).push(frame);
    let begun = tables.map_values(|x: TableModel| element_begun(x, stack_path(deeper)));
    let (a, b, c) = (
        Step::Begin(path),
        steps_of(inner, path),
        Step::End(path, own_text(inner), attribute_values(tag)),
    );
    assert(begun =~= all_run(tables, seq![a])) by {
        assert forall|k: int| 0 <= k < tables.len() implies begun[k] == all_run(
            tables,
            seq![a],
        )[k] by {
            lemma_run_one(tables[k], a);
        }
    }
    assert(tables_from(events, i, stack, tables) == tables_from(events, i + 1, deeper, begun));
    lemma_steps(events, i + 1, inner, deeper, begun);
    let done = behind(deeper, inner);
    let filled = all_run(begun, b);
    let j = i + 1 + events_of(inner).len();
    assert(events[i + (start + events_of(inner)).len() + 0] == end[0]);
    assert(deeper.drop_last() =~= with_child(stack));
    assert(done.drop_last() =~= with_child(stack));
    assert(done.last().text =~= own_text(inner));
    assert(frame_tags(done) =~= frame_tags(deeper));
    let ended = filled.map_values(
        |x: TableModel| element_ended(x, stack_path(done), done.last()),
    );
    assert(tables_from(events, j, done, filled) == tables_from(
        events,
        j + 1,
        with_child(stack),
        ended,
    ));
    assert(ended =~= all_run(filled, seq![c])) by {
        assert forall|k: int| 0 <= k < filled.len() implies ended[k] == all_run(
            filled,
            seq![c],
        )[k] by {
            lemma_run_one(filled[k], c);
        }
    }
    lemma_all_run_on(tables, seq![a], b);
    lemma_all_run_on(tables, seq![a] + b, seq![c]);
}

/// The events of a document, with the one that ends it.
pub open spec fn document_of(nodes: Seq<Xml>) -> Seq<EventModel> {
    events_of(nodes).push(EventModel::Eof)
}

/// The tables that a document is read into are those that its steps make, one after the other.
pub proof fn law_tables_follow_steps(nodes: Seq<Xml>, tables: Seq<TableModel>)
    requires
        is_sound(nodes),
    ensures
        tables_from(document_of(nodes), 0, Seq::empty(), tables) == Ok::<
            Seq<TableModel>,
            Seq<char>,
        >(all_run(tables, steps_of(nodes, Seq::empty()))),
{
    let events = document_of(nodes);
    let none = Seq::<FrameModel>::empty();
    assert(stack_path(none) =~= Seq::<char>::empty()) by {
        assert(frame_tags(none) =~= Seq::<Seq<char>>::empty());
    }
    assert forall|k: int| 0 <= k < events_of(nodes).len() implies events[0 + k]
        == #[trigger] events_of(nodes)[k] by {}
    lemma_steps(events, 0, nodes, none, tables);
    assert(events[events_of(nodes).len() as int] is Eof);
}

/// A document that is malformed before its end is refused.
pub proof fn law_malformed_documents_are_refused(
    events: Seq<EventModel>,
    i: int,
    stack: Seq<FrameModel>,
    tables: Seq<TableModel>,
    k: int,
)
    requires
        0 <= i <= k < events.len(),
        events[k] is Failed,
        forall|j: int| i <= j < k ==> !(#[trigger] events[j] is Eof),
    ensures
        tables_from(events, i, stack, tables) is Err,
    decreases events.len() - i,
{
    if i < k {
        assert(!(events[i] is Eof));
        match events[i] {
            EventModel::Start(t) => {
                if let Ok(attributes) = tag_attributes(t) {
                    let inner = with_child(stack).push(new_frame(t, attributes));
                    let next = tables.map_values(
                        |x: TableModel| element_begun(x, stack_path(inner)),
                    );
                    law_malformed_documents_are_refused(events, i + 1, inner, next, k);
                }
            },
            EventModel::Empty(t) => {
                if let Ok(attributes) = tag_attributes(t) {
                    let frame = new_frame(t, attributes);
                    let path = stack_path(with_child(stack).push(frame));
                    let next = tables.map_values(
                        |x: TableModel| element_ended(element_begun(x, path), path, frame),
                    );
                    law_malformed_documents_are_refused(events, i + 1, with_child(stack), next, k);
                }
            },
            EventModel::Text(r) => {
                law_malformed_documents_are_refused(events, i + 1, stack, tables, k);
                if let Ok(s) = r {
                    law_malformed_documents_are_refused(
                        events,
                        i + 1,
                        with_text(stack, s),
                        tables,
                        k,
                    );
                }
            },
            EventModel::CData(b) => {
                law_malformed_documents_are_refused(events, i + 1, stack, tables, k);
                law_malformed_documents_are_refused(
                    events,
                    i + 1,
                    with_text(stack, utf8_lossy(b)),
                    tables,
                    k,
                );
            },
            EventModel::End(_) => {
                law_malformed_documents_are_refused(events, i + 1, stack, tables, k);
                let next = tables.map_values(
                    |x: TableModel| element_ended(x, stack_path(stack), stack.last()),
                );
                law_malformed_documents_are_refused(events, i + 1, stack.drop_last(), next, k);
            },
            _ => law_malformed_documents_are_refused(events, i + 1, stack, tables, k),
        }
    }
}

} // verus!
