//! Reading the tables of a document.
use vstd::hash_map::StringHashMap;
use vstd::prelude::*;

use crate::collections::{text_entries, text_pairs, turned_round};
use crate::encoding::{lossy_string, utf8_lossy};
use crate::ordered_map::pair_texts;
use crate::text::{
    chars_of, find, find_in, push_chars, same_str, string_of, texts, trim, trim_space,
};
use crate::xml::{
    attribute_result, complete, document_events, ends_document, event_models, read_events,
    AttributeModel, EventModel, TagModel, XmlError, XmlEvent, XmlTag,
};
use crate::xml2tables::maps::mapping_entries;
use crate::xml2tables::paths::{
    attribute_path, attribute_text, current_path, join_attribute, normalize_attr_name,
    normalize_tag, path_of, tag_text,
};
use crate::xml2tables::specs::{
    discover_real_paths, document_paths, normalize_table_specs, normalized_specs,
    resolve_table_specs, resolved_specs, resolved_views, ResolvedModel, ResolvedTableSpec,
};
use crate::xml2tables::tables::{
    context_begun, context_ended, fresh_table, in_context, is_context_carry_path, row_ended,
    row_models, table_ended, value_taken, TableModel, TableState, ValueTarget,
};
use crate::xml2tables::types::{XmlMappingDocument, XmlTable, XmlTableSpec, XmlTables};

verus! {

// ---------------------------------------------------------------------------
// Model
// ---------------------------------------------------------------------------

/// What is done with the value at a path.
pub struct ActionModel {
    pub target: ValueTarget,
    pub column: Seq<char>,
}

pub open spec fn carry_target(spec: ResolvedModel, path: Seq<char>) -> ValueTarget {
    if in_context(spec.context_path, path) {
        ValueTarget::ContextCarry
    } else {
        ValueTarget::GlobalCarry
    }
}

/// What a table does with the values at its paths, in order.
pub open spec fn table_actions(spec: ResolvedModel) -> Seq<(Seq<char>, ActionModel)> {
    spec.columns.map_values(
        |e: (Seq<char>, Seq<char>)|
            (e.0, ActionModel { target: ValueTarget::Column, column: e.1 }),
    ) + spec.carry.map_values(
        |e: (Seq<char>, Seq<char>)|
            (e.0, ActionModel { target: carry_target(spec, e.0), column: e.1 }),
    )
}

/// The actions at one path.
pub open spec fn actions_at(list: Seq<(Seq<char>, ActionModel)>, path: Seq<char>) -> Seq<
    ActionModel,
>
    decreases list.len(),
{
    if list.len() == 0 {
        Seq::empty()
    } else {
        let earlier = actions_at(list.drop_last(), path);
        if list.last().0 == path {
            earlier.push(list.last().1)
        } else {
            earlier
        }
    }
}

/// A table after the first `n` actions on a value.
pub open spec fn acted(
    t: TableModel,
    actions: Seq<ActionModel>,
    n: nat,
    value: Seq<char>,
) -> TableModel
    decreases n,
{
    if n == 0 || n > actions.len() {
        t
    } else {
        let a = actions[n - 1];
        value_taken(acted(t, actions, (n - 1) as nat, value), a.target, a.column, value)
    }
}

/// A table with the value at a path taken in.
pub open spec fn taken_at(t: TableModel, path: Seq<char>, value: Seq<char>) -> TableModel {
    let actions = actions_at(table_actions(t.spec), path);
    acted(t, actions, actions.len(), value)
}

/// Whether a path is written like that of an attribute.
pub open spec fn names_attribute(path: Seq<char>) -> bool {
    find(path, seq!['/', '@']) is Some
}

/// A table with the text of the element at a path taken in.
pub open spec fn text_taken(t: TableModel, path: Seq<char>, text: Seq<char>) -> TableModel {
    if trim(text).len() == 0 || names_attribute(path) {
        t
    } else {
        taken_at(t, path, trim(text))
    }
}

/// A table with the first `n` attributes of the element at a path taken in.
pub open spec fn attributes_taken(
    t: TableModel,
    path: Seq<char>,
    attributes: Seq<(Seq<char>, Seq<char>)>,
    n: nat,
) -> TableModel
    decreases n,
{
    if n == 0 || n > attributes.len() {
        t
    } else {
        taken_at(
            attributes_taken(t, path, attributes, (n - 1) as nat),
            attribute_path(path, attributes[n - 1].0),
            attributes[n - 1].1,
        )
    }
}

/// An element whose end is still to come.
pub struct FrameModel {
    pub tag: Seq<char>,
    pub attributes: Seq<(Seq<char>, Seq<char>)>,
    pub text: Seq<char>,
    pub has_child: bool,
}

/// A table at the beginning of an element.
pub open spec fn element_begun(t: TableModel, path: Seq<char>) -> TableModel {
    if t.spec.context_path == Some(path) {
        context_begun(t)
    } else {
        t
    }
}

/// A table at the end of an element.
pub open spec fn element_ended(t: TableModel, path: Seq<char>, frame: FrameModel) -> TableModel {
    let texted = text_taken(t, path, frame.text);
    let full = attributes_taken(texted, path, frame.attributes, frame.attributes.len());
    let rowed = if t.spec.row_boundary == path {
        row_ended(full)
    } else {
        full
    };
    if t.spec.context_path == Some(path) {
        context_ended(rowed)
    } else {
        rowed
    }
}

/// The attributes of a tag from the `i`-th on, behind those in `acc`.
pub open spec fn tag_attributes_from(
    attributes: Seq<Result<AttributeModel, Seq<char>>>,
    i: int,
    acc: Seq<(Seq<char>, Seq<char>)>,
) -> Result<Seq<(Seq<char>, Seq<char>)>, Seq<char>>
    decreases attributes.len() - i,
{
    if i >= attributes.len() {
        Ok(acc)
    } else {
        match attributes[i] {
            Err(e) => Err(e),
            Ok(a) => match a.value {
                Err(e) => Err(e),
                Ok(v) => tag_attributes_from(
                    attributes,
                    i + 1,
                    acc.push((attribute_text(a.key), v)),
                ),
            },
        }
    }
}

/// The attributes of a tag.
pub open spec fn tag_attributes(tag: TagModel) -> Result<
    Seq<(Seq<char>, Seq<char>)>,
    Seq<char>,
> {
    tag_attributes_from(tag.attributes, 0, Seq::empty())
}

pub open spec fn frame_tags(stack: Seq<FrameModel>) -> Seq<Seq<char>> {
    stack.map_values(|f: FrameModel| f.tag)
}

pub open spec fn stack_path(stack: Seq<FrameModel>) -> Seq<char> {
    path_of(frame_tags(stack))
}

/// The elements around a place, the innermost of which has a child.
pub open spec fn with_child(stack: Seq<FrameModel>) -> Seq<FrameModel> {
    if stack.len() == 0 {
        stack
    } else {
        stack.drop_last().push(FrameModel { has_child: true, ..stack.last() })
    }
}

/// The elements around a place, with a text for the innermost. Behind a child, text is ignored.
pub open spec fn with_text(stack: Seq<FrameModel>, text: Seq<char>) -> Seq<FrameModel> {
    stack.drop_last().push(FrameModel { text: stack.last().text + text, ..stack.last() })
}

pub open spec fn takes_text(stack: Seq<FrameModel>) -> bool {
    stack.len() > 0 && !stack.last().has_child
}

pub open spec fn new_frame(tag: TagModel, attributes: Seq<(Seq<char>, Seq<char>)>) -> FrameModel {
    FrameModel {
        tag: tag_text(tag.name),
        attributes,
        text: Seq::empty(),
        has_child: false,
    }
}

/// The tables after the events from the `i`-th on, inside the elements of `stack`.
pub open spec fn tables_from(
    events: Seq<EventModel>,
    i: int,
    stack: Seq<FrameModel>,
    tables: Seq<TableModel>,
) -> Result<Seq<TableModel>, Seq<char>>
    decreases events.len() - i,
{
    if i >= events.len() {
        Ok(tables)
    } else {
        match events[i] {
            EventModel::Eof => Ok(tables),
            EventModel::Failed(e) => Err(e),
            EventModel::Start(t) => match tag_attributes(t) {
                Err(e) => Err(e),
                Ok(attributes) => {
                    let inner = with_child(stack).push(new_frame(t, attributes));
                    tables_from(
                        events,
                        i + 1,
                        inner,
                        tables.map_values(|x: TableModel| element_begun(x, stack_path(inner))),
                    )
                },
            },
            EventModel::Empty(t) => match tag_attributes(t) {
                Err(e) => Err(e),
                Ok(attributes) => {
                    let frame = new_frame(t, attributes);
                    let path = stack_path(with_child(stack).push(frame));
                    tables_from(
                        events,
                        i + 1,
                        with_child(stack),
                        tables.map_values(
                            |x: TableModel| element_ended(element_begun(x, path), path, frame),
                        ),
                    )
                },
            },
            EventModel::Text(r) => if takes_text(stack) {
                match r {
                    Err(e) => Err(e),
                    Ok(s) => tables_from(events, i + 1, with_text(stack, s), tables),
                }
            } else {
                tables_from(events, i + 1, stack, tables)
            },
            EventModel::CData(b) => if takes_text(stack) {
                tables_from(events, i + 1, with_text(stack, utf8_lossy(b)), tables)
            } else {
                tables_from(events, i + 1, stack, tables)
            },
            EventModel::End(_) => if stack.len() > 0 {
                tables_from(
                    events,
                    i + 1,
                    stack.drop_last(),
                    tables.map_values(
                        |x: TableModel| element_ended(x, stack_path(stack), stack.last()),
                    ),
                )
            } else {
                tables_from(events, i + 1, stack, tables)
            },
            EventModel::Other => tables_from(events, i + 1, stack, tables),
        }
    }
}

/// Those of the first `n` tables that have rows.
pub open spec fn filled_tables(tables: Seq<TableModel>, n: nat) -> Seq<TableModel>
    decreases n,
{
    if n == 0 || n > tables.len() {
        Seq::empty()
    } else {
        let earlier = filled_tables(tables, (n - 1) as nat);
        if tables[n - 1].rows.len() > 0 {
            earlier.push(tables[n - 1])
        } else {
            earlier
        }
    }
}

/// The tables with rows that the given specifications make of a document.
pub open spec fn resolved_tables(events: Seq<EventModel>, specs: Seq<ResolvedModel>) -> Result<
    Seq<TableModel>,
    Seq<char>,
> {
    match tables_from(
        events,
        0,
        Seq::empty(),
        specs.map_values(|s: ResolvedModel| fresh_table(s)),
    ) {
        Err(e) => Err(e),
        Ok(tables) => {
            let ended = tables.map_values(|t: TableModel| table_ended(t));
            Ok(filled_tables(ended, ended.len()))
        },
    }
}

/// The tables that a mapping makes of a document.
pub open spec fn document_tables(
    events: Seq<EventModel>,
    mapping: Seq<(Seq<char>, XmlTableSpec)>,
) -> Result<Seq<TableModel>, Seq<char>> {
    match document_paths(events) {
        Err(e) => Err(e),
        Ok(paths) => {
            let specs = normalized_specs(mapping);
            resolved_tables(events, resolved_specs(specs, paths, specs.len()))
        },
    }
}

/// A table as it is handed out.
pub open spec fn shows(table: XmlTable, t: TableModel) -> bool {
    &&& table.name@ == t.spec.name
    &&& texts(table.columns@) == t.spec.output_columns
    &&& row_models(table.rows@) == t.rows
}

pub open spec fn show_all(tables: Seq<XmlTable>, models: Seq<TableModel>) -> bool {
    &&& tables.len() == models.len()
    &&& forall|k: int| 0 <= k < tables.len() ==> shows(#[trigger] tables[k], models[k])
}

// ---------------------------------------------------------------------------
// Actions
// ---------------------------------------------------------------------------

/// What is done with the value at a path.
#[derive(Debug)]
pub struct PathAction {
    pub target: ValueTarget,
    pub column: String,
}

impl View for PathAction {
    type V = ActionModel;

    open spec fn view(&self) -> ActionModel {
        ActionModel { target: self.target, column: self.column@ }
    }
}

pub open spec fn action_models(v: Seq<PathAction>) -> Seq<ActionModel> {
    v.map_values(|a: PathAction| a@)
}

fn copy_actions(v: &Vec<PathAction>) -> (out: Vec<PathAction>)
    ensures
        action_models(out@) == action_models(v@),
{
    let mut out: Vec<PathAction> = Vec::new();
    let mut i: usize = 0;
    while i < v.len()
        invariant
            i <= v@.len(),
            action_models(out@) == action_models(v@).take(i as int),
        decreases v@.len() - i,
    {
        let ghost earlier = out@;
        out.push(PathAction { target: v[i].target, column: v[i].column.clone() });
        assert(action_models(out@) =~= action_models(earlier).push(v@[i as int]@));
        assert(action_models(out@) =~= action_models(v@).take(i + 1));
        i += 1;
    }
    assert(action_models(v@).take(i as int) =~= action_models(v@));
    out
}

/// The actions that an index gives for a path.
pub open spec fn indexed(index: Map<Seq<char>, Vec<PathAction>>, path: Seq<char>) -> Seq<
    ActionModel,
> {
    if index.contains_key(path) {
        action_models(index[path]@)
    } else {
        Seq::empty()
    }
}

pub open spec fn indexes(
    index: Map<Seq<char>, Vec<PathAction>>,
    list: Seq<(Seq<char>, ActionModel)>,
) -> bool {
    forall|path: Seq<char>| #[trigger] indexed(index, path) == actions_at(list, path)
}

/// Adds an action to the index.
fn insert_action(
    index: &mut StringHashMap<Vec<PathAction>>,
    path: &String,
    action: PathAction,
    Ghost(list): Ghost<Seq<(Seq<char>, ActionModel)>>,
)
    requires
        indexes(old(index)@, list),
    ensures
        indexes(final(index)@, list.push((path@, action@))),
{
    let ghost before = index@;
    let ghost a = action@;
    let mut actions = match index.get(path.as_str()) {
        Some(v) => copy_actions(v),
        None => {
            let v: Vec<PathAction> = Vec::new();
            assert(action_models(v@) =~= Seq::empty());
            v
        },
    };
    let ghost earlier = actions@;
    assert(action_models(earlier) == indexed(before, path@));
    actions.push(action);
    assert(action_models(actions@) =~= action_models(earlier).push(a));
    index.insert(path.clone(), actions);
    proof {
        let longer = list.push((path@, a));
        assert(longer.drop_last() =~= list);
        assert forall|p: Seq<char>| #[trigger] indexed(index@, p) == actions_at(longer, p) by {
            assert(indexed(before, p) == actions_at(list, p));
        }
    }
}

/// The actions of a table by path.
pub fn build_path_index(spec: &ResolvedTableSpec) -> (index: StringHashMap<Vec<PathAction>>)
    ensures
        indexes(index@, table_actions(spec@)),
{
    let columns = text_pairs(&spec.columns);
    let carry = text_pairs(&spec.carry);
    let ghost all = table_actions(spec@);
    let mut index: StringHashMap<Vec<PathAction>> = StringHashMap::new();
    proof {
        assert(all.take(0) =~= Seq::empty());
        assert(forall|p: Seq<char>| #[trigger]
            indexed(index@, p) == actions_at(all.take(0), p));
    }
    let mut i: usize = 0;
    while i < columns.len()
        invariant
            i <= columns@.len(),
            pair_texts(columns@) == text_entries(spec.columns),
            all == table_actions(spec@),
            indexes(index@, all.take(i as int)),
        decreases columns@.len() - i,
    {
        assert(text_entries(spec.columns)[i as int] == (
            columns@[i as int].0@,
            columns@[i as int].1@,
        ));
        let action = PathAction { target: ValueTarget::Column, column: columns[i].1.clone() };
        assert(all[i as int] == (columns@[i as int].0@, action@));
        assert(all.take(i + 1) =~= all.take(i as int).push(all[i as int]));
        insert_action(&mut index, &columns[i].0, action, Ghost(all.take(i as int)));
        i += 1;
    }
    let ghost n = columns@.len() as int;
    assert(text_entries(spec.columns).len() == n);
    let mut j: usize = 0;
    while j < carry.len()
        invariant
            j <= carry@.len(),
            pair_texts(carry@) == text_entries(spec.carry),
            all == table_actions(spec@),
            n == text_entries(spec.columns).len(),
            indexes(index@, all.take(n + j)),
        decreases carry@.len() - j,
    {
        assert(text_entries(spec.carry)[j as int] == (carry@[j as int].0@, carry@[j as int].1@));
        let target = if is_context_carry_path(&spec.context_path, carry[j].0.as_str()) {
            ValueTarget::ContextCarry
        } else {
            ValueTarget::GlobalCarry
        };
        let action = PathAction { target, column: carry[j].1.clone() };
        assert(all[n + j] == (carry@[j as int].0@, action@));
        assert(all.take(n + j + 1) =~= all.take(n + j).push(all[n + j]));
        insert_action(&mut index, &carry[j].0, action, Ghost(all.take(n + j)));
        j += 1;
    }
    assert(all.take(n + j) =~= all);
    index
}

// ---------------------------------------------------------------------------
// One table
// ---------------------------------------------------------------------------

proof fn lemma_acted_keeps(t: TableModel, actions: Seq<ActionModel>, n: nat, value: Seq<char>)
    ensures
        acted(t, actions, n, value).spec == t.spec,
        acted(t, actions, n, value).row_count == t.row_count,
        acted(t, actions, n, value).context_count == t.context_count,
    decreases n,
{
    if 0 < n <= actions.len() {
        lemma_acted_keeps(t, actions, (n - 1) as nat, value);
    }
}

proof fn lemma_taken_keeps(t: TableModel, path: Seq<char>, value: Seq<char>)
    ensures
        taken_at(t, path, value).spec == t.spec,
        taken_at(t, path, value).row_count == t.row_count,
        taken_at(t, path, value).context_count == t.context_count,
{
    let actions = actions_at(table_actions(t.spec), path);
    lemma_acted_keeps(t, actions, actions.len(), value);
}

proof fn lemma_attributes_keep(
    t: TableModel,
    path: Seq<char>,
    attributes: Seq<(Seq<char>, Seq<char>)>,
    n: nat,
)
    ensures
        attributes_taken(t, path, attributes, n).spec == t.spec,
        attributes_taken(t, path, attributes, n).row_count == t.row_count,
        attributes_taken(t, path, attributes, n).context_count == t.context_count,
    decreases n,
{
    if 0 < n <= attributes.len() {
        lemma_attributes_keep(t, path, attributes, (n - 1) as nat);
        lemma_taken_keeps(
            attributes_taken(t, path, attributes, (n - 1) as nat),
            attribute_path(path, attributes[n - 1].0),
            attributes[n - 1].1,
        );
    }
}

proof fn lemma_ended_counts(t: TableModel, path: Seq<char>, frame: FrameModel)
    ensures
        element_ended(t, path, frame).spec == t.spec,
        element_ended(t, path, frame).row_count <= t.row_count + 1,
        element_ended(t, path, frame).context_count == t.context_count,
        element_begun(t, path).spec == t.spec,
        element_begun(t, path).row_count == t.row_count,
        element_begun(t, path).context_count <= t.context_count + 1,
{
    lemma_taken_keeps(t, path, trim(frame.text));
    lemma_attributes_keep(
        text_taken(t, path, frame.text),
        path,
        frame.attributes,
        frame.attributes.len(),
    );
}

struct ElementFrame {
    tag: String,
    attributes: Vec<(String, String)>,
    text: Vec<char>,
    has_child: bool,
}

impl View for ElementFrame {
    type V = FrameModel;

    closed spec fn view(&self) -> FrameModel {
        FrameModel {
            tag: self.tag@,
            attributes: pair_texts(self.attributes@),
            text: self.text@,
            has_child: self.has_child,
        }
    }
}

/// A table with the index of its paths.
struct TableReader {
    state: TableState,
    index: StringHashMap<Vec<PathAction>>,
}

impl TableReader {
    closed spec fn wf(self) -> bool {
        indexes(self.index@, table_actions(self.state@.spec))
    }

    fn new(spec: ResolvedTableSpec) -> (reader: Self)
        ensures
            reader.wf(),
            reader.state@ == fresh_table(spec@),
    {
        let index = build_path_index(&spec);
        TableReader { state: TableState::new(spec), index }
    }

    /// Takes in the value at a path.
    fn take_at(&mut self, path: &str, value: &str)
        requires
            old(self).wf(),
        ensures
            final(self).wf(),
            final(self).state@ == taken_at(old(self).state@, path@, value@),
    {
        let ghost start = self.state@;
        let ghost all = actions_at(table_actions(start.spec), path@);
        assert(indexed(self.index@, path@) == all);
        let actions = match self.index.get(path) {
            Some(v) => v,
            None => {
                return;
            },
        };
        let mut i: usize = 0;
        while i < actions.len()
            invariant
                i <= actions@.len(),
                action_models(actions@) == all,
                self.index == old(self).index,
                self.state@ == acted(start, all, i as nat, value@),
            decreases actions@.len() - i,
        {
            assert(all[i as int] == actions@[i as int]@);
            self.state.push_value(actions[i].target, actions[i].column.as_str(), value.to_owned());
            i += 1;
        }
        assert(all.len() == actions@.len());
        proof {
            lemma_taken_keeps(start, path@, value@);
        }
    }

    /// Begins an element.
    fn begin_element(&mut self, path: &str)
        requires
            old(self).wf(),
            old(self).state@.context_count < usize::MAX,
        ensures
            final(self).wf(),
            final(self).state@ == element_begun(old(self).state@, path@),
    {
        let opens = match &self.state.table_spec().context_path {
            Some(c) => same_str(c.as_str(), path),
            None => false,
        };
        if opens {
            self.state.start_context();
        }
    }

    /// Ends an element.
    fn end_element(&mut self, path: &str, frame: &ElementFrame)
        requires
            old(self).wf(),
            old(self).state@.row_count < usize::MAX,
        ensures
            final(self).wf(),
            final(self).state@ == element_ended(old(self).state@, path@, frame@),
    {
        let ghost start = self.state@;
        let mut marker: Vec<char> = Vec::new();
        marker.push('/');
        marker.push('@');
        assert(marker@ =~= seq!['/', '@']);
        let value = trim_space(&frame.text);
        if value.len() > 0 && find_in(&chars_of(path), &marker).is_none() {
            self.take_at(path, string_of(value).as_str());
        }
        let ghost texted = self.state@;
        assert(texted == text_taken(start, path@, frame@.text));
        proof {
            lemma_taken_keeps(start, path@, trim(frame@.text));
        }
        let ghost attributes = frame@.attributes;
        let mut i: usize = 0;
        while i < frame.attributes.len()
            invariant
                i <= frame.attributes@.len(),
                attributes == pair_texts(frame.attributes@),
                self.wf(),
                self.state@ == attributes_taken(texted, path@, attributes, i as nat),
            decreases frame.attributes@.len() - i,
        {
            assert(attributes[i as int] == (
                frame.attributes@[i as int].0@,
                frame.attributes@[i as int].1@,
            ));
            let attr_path = join_attribute(path, frame.attributes[i].0.as_str());
            self.take_at(attr_path.as_str(), frame.attributes[i].1.as_str());
            i += 1;
        }
        assert(attributes.len() == frame.attributes@.len());
        proof {
            lemma_attributes_keep(texted, path@, attributes, attributes.len());
        }
        if same_str(self.state.table_spec().row_boundary.as_str(), path) {
            self.state.emit_row();
        }
        let closes = match &self.state.table_spec().context_path {
            Some(c) => same_str(c.as_str(), path),
            None => false,
        };
        if closes {
            self.state.finalize_context_carry();
        }
    }
}

// ---------------------------------------------------------------------------
// All tables
// ---------------------------------------------------------------------------

spec fn frame_models(stack: Seq<ElementFrame>) -> Seq<FrameModel> {
    stack.map_values(|f: ElementFrame| f@)
}

spec fn reader_models(readers: Seq<TableReader>) -> Seq<TableModel> {
    readers.map_values(|r: TableReader| r.state@)
}

/// Readers whose counters were moved `i` times at most.
spec fn readers_wf(readers: Seq<TableReader>, i: int) -> bool {
    forall|k: int|
        0 <= k < readers.len() ==> (#[trigger] readers[k]).wf() && readers[k].state@.row_count <= i
            && readers[k].state@.context_count <= i
}

/// Readers whose counters of rows were moved `i` times at most, and whose counters of contexts
/// once more.
spec fn readers_begun(readers: Seq<TableReader>, i: int) -> bool {
    forall|k: int|
        0 <= k < readers.len() ==> (#[trigger] readers[k]).wf() && readers[k].state@.row_count <= i
            && readers[k].state@.context_count <= i + 1
}

fn begin_element_in_all(readers: &mut Vec<TableReader>, path: &str, Ghost(n): Ghost<int>)
    requires
        readers_wf(old(readers)@, n),
        n < usize::MAX,
    ensures
        reader_models(final(readers)@) == reader_models(old(readers)@).map_values(
            |x: TableModel| element_begun(x, path@),
        ),
        readers_begun(final(readers)@, n),
{
    let ghost before = readers@;
    let mut k: usize = 0;
    while k < readers.len()
        invariant
            k <= readers@.len() == before.len(),
            before == old(readers)@,
            n < usize::MAX,
            readers_wf(before, n),
            forall|j: int|
                0 <= j < k ==> (#[trigger] readers@[j]).wf() && readers@[j].state@ == element_begun(
                    before[j].state@,
                    path@,
                ),
            forall|j: int| k <= j < before.len() ==> #[trigger] readers@[j] == before[j],
        decreases readers@.len() - k,
    {
        assert(readers@[k as int] == before[k as int]);
        readers[k].begin_element(path);
        k += 1;
    }
    proof {
        assert forall|j: int| 0 <= j < readers@.len() implies (#[trigger] readers@[j]).wf()
            && readers@[j].state@.row_count <= n && readers@[j].state@.context_count <= n + 1 by {
            assert(before[j].wf());
        }
    }
    assert(reader_models(readers@) =~= reader_models(before).map_values(
        |x: TableModel| element_begun(x, path@),
    ));
}

fn end_element_in_all(
    readers: &mut Vec<TableReader>,
    path: &str,
    frame: &ElementFrame,
    Ghost(n): Ghost<int>,
)
    requires
        readers_begun(old(readers)@, n),
        n < usize::MAX,
    ensures
        reader_models(final(readers)@) == reader_models(old(readers)@).map_values(
            |x: TableModel| element_ended(x, path@, frame@),
        ),
        readers_wf(final(readers)@, n + 1),
{
    let ghost before = readers@;
    let mut k: usize = 0;
    while k < readers.len()
        invariant
            k <= readers@.len() == before.len(),
            before == old(readers)@,
            n < usize::MAX,
            readers_begun(before, n),
            forall|j: int|
                0 <= j < k ==> (#[trigger] readers@[j]).wf() && readers@[j].state@ == element_ended(
                    before[j].state@,
                    path@,
                    frame@,
                ),
            forall|j: int| k <= j < before.len() ==> #[trigger] readers@[j] == before[j],
        decreases readers@.len() - k,
    {
        assert(readers@[k as int] == before[k as int]);
        readers[k].end_element(path, frame);
        k += 1;
    }
    proof {
        assert forall|j: int| 0 <= j < readers@.len() implies (#[trigger] readers@[j]).wf()
            && readers@[j].state@.row_count <= n + 1 && readers@[j].state@.context_count <= n
            + 1 by {
            assert(before[j].wf());
            lemma_ended_counts(before[j].state@, path@, frame@);
        }
    }
    assert(reader_models(readers@) =~= reader_models(before).map_values(
        |x: TableModel| element_ended(x, path@, frame@),
    ));
}

/// The attributes of a tag.
fn collect_attributes(tag: &XmlTag) -> (r: Result<Vec<(String, String)>, XmlError>)
    ensures
        match r {
            Ok(v) => tag_attributes(tag@) == Ok::<Seq<(Seq<char>, Seq<char>)>, Seq<char>>(
                pair_texts(v@),
            ),
            Err(e) => tag_attributes(tag@) == Err::<Seq<(Seq<char>, Seq<char>)>, Seq<char>>(
                e.message@,
            ),
        },
{
    let mut attributes: Vec<(String, String)> = Vec::new();
    assert(pair_texts(attributes@) =~= Seq::empty());
    let mut i: usize = 0;
    while i < tag.attributes.len()
        invariant
            i <= tag.attributes@.len(),
            tag@.attributes.len() == tag.attributes@.len(),
            tag_attributes(tag@) == tag_attributes_from(
                tag@.attributes,
                i as int,
                pair_texts(attributes@),
            ),
        decreases tag.attributes@.len() - i,
    {
        assert(tag@.attributes[i as int] == attribute_result(tag.attributes@[i as int]));
        match &tag.attributes[i] {
            Err(e) => {
                return Err(XmlError { message: e.clone() });
            },
            Ok(a) => match &a.value {
                Err(e) => {
                    return Err(XmlError { message: e.clone() });
                },
                Ok(v) => {
                    let ghost earlier = attributes@;
                    attributes.push((normalize_attr_name(&a.key), v.clone()));
                    assert(pair_texts(attributes@) =~= pair_texts(earlier).push(
                        (attribute_text(a.key@), v@),
                    ));
                },
            },
        }
        i += 1;
    }
    Ok(attributes)
}

fn open_frame(tag: &XmlTag) -> (r: Result<ElementFrame, XmlError>)
    ensures
        match r {
            Ok(frame) => tag_attributes(tag@) matches Ok(attributes) && frame@ == new_frame(
                tag@,
                attributes,
            ),
            Err(e) => tag_attributes(tag@) == Err::<Seq<(Seq<char>, Seq<char>)>, Seq<char>>(
                e.message@,
            ),
        },
{
    match collect_attributes(tag) {
        Ok(attributes) => {
            let frame = ElementFrame {
                tag: normalize_tag(&tag.name),
                attributes,
                text: Vec::new(),
                has_child: false,
            };
            assert(frame.text@ =~= Seq::<char>::empty());
            Ok(frame)
        },
        Err(e) => Err(e),
    }
}

fn mark_parent(stack: &mut Vec<ElementFrame>)
    ensures
        frame_models(final(stack)@) == with_child(frame_models(old(stack)@)),
{
    let ghost before = stack@;
    match stack.pop() {
        Some(mut frame) => {
            assert(before.last()@ == frame@);
            frame.has_child = true;
            let ghost marked = frame@;
            stack.push(frame);
            assert(frame_models(stack@) =~= frame_models(before).drop_last().push(marked));
        },
        None => {},
    }
}

fn add_text(stack: &mut Vec<ElementFrame>, text: &[char])
    requires
        old(stack)@.len() > 0,
    ensures
        frame_models(final(stack)@) == with_text(frame_models(old(stack)@), text@),
{
    let ghost before = stack@;
    match stack.pop() {
        Some(mut frame) => {
            assert(before.last()@ == frame@);
            push_chars(&mut frame.text, text);
            let ghost longer = frame@;
            stack.push(frame);
            assert(frame_models(stack@) =~= frame_models(before).drop_last().push(longer));
        },
        None => {},
    }
}

fn frame_path(stack: &Vec<ElementFrame>) -> (path: String)
    ensures
        path@ == stack_path(frame_models(stack@)),
{
    let ghost tags_of = frame_tags(frame_models(stack@));
    let mut tags: Vec<String> = Vec::new();
    let mut i: usize = 0;
    while i < stack.len()
        invariant
            i <= stack@.len(),
            tags_of == frame_tags(frame_models(stack@)),
            texts(tags@) == tags_of.take(i as int),
        decreases stack@.len() - i,
    {
        let ghost earlier = tags@;
        assert(tags_of[i as int] == stack@[i as int].tag@);
        tags.push(stack[i].tag.clone());
        assert(texts(tags@) =~= texts(earlier).push(stack@[i as int].tag@));
        assert(texts(tags@) =~= tags_of.take(i + 1));
        i += 1;
    }
    assert(tags_of.take(i as int) =~= tags_of);
    current_path(&tags)
}

fn stack_takes_text(stack: &Vec<ElementFrame>) -> (r: bool)
    ensures
        r == takes_text(frame_models(stack@)),
{
    if stack.len() == 0 {
        return false;
    }
    assert(frame_models(stack@).last() == stack@.last()@);
    !stack[stack.len() - 1].has_child
}

fn open_readers(specs: Vec<ResolvedTableSpec>) -> (readers: Vec<TableReader>)
    ensures
        reader_models(readers@) == resolved_views(specs@).map_values(
            |s: ResolvedModel| fresh_table(s),
        ),
        readers_wf(readers@, 0),
{
    let ghost models = resolved_views(specs@);
    let ghost total = specs@.len();
    let mut reversed = turned_round(specs);
    let mut readers: Vec<TableReader> = Vec::new();
    while reversed.len() > 0
        invariant
            reversed@.len() + readers@.len() == total == models.len(),
            forall|k: int|
                0 <= k < reversed@.len() ==> (#[trigger] reversed@[k])@ == models[total - 1 - k],
            forall|k: int|
                0 <= k < readers@.len() ==> (#[trigger] readers@[k]).wf() && readers@[k].state@
                    == fresh_table(models[k]),
        decreases reversed@.len(),
    {
        let ghost done = readers@.len();
        match reversed.pop() {
            Some(spec) => {
                assert(spec@ == models[done as int]);
                readers.push(TableReader::new(spec));
            },
            None => {},
        }
    }
    assert(reader_models(readers@) =~= models.map_values(|s: ResolvedModel| fresh_table(s)));
    readers
}

fn finish_all(readers: &mut Vec<TableReader>, Ghost(n): Ghost<int>)
    requires
        readers_wf(old(readers)@, n),
        n < usize::MAX,
    ensures
        reader_models(final(readers)@) == reader_models(old(readers)@).map_values(
            |x: TableModel| table_ended(x),
        ),
{
    let ghost before = readers@;
    let mut k: usize = 0;
    while k < readers.len()
        invariant
            k <= readers@.len() == before.len(),
            n < usize::MAX,
            readers_wf(before, n),
            forall|j: int|
                0 <= j < k ==> (#[trigger] readers@[j]).state@ == table_ended(before[j].state@),
            forall|j: int| k <= j < before.len() ==> #[trigger] readers@[j] == before[j],
        decreases readers@.len() - k,
    {
        assert(readers@[k as int] == before[k as int]);
        readers[k].state.finish();
        k += 1;
    }
    assert(reader_models(readers@) =~= reader_models(before).map_values(
        |x: TableModel| table_ended(x),
    ));
}

fn collect_tables(readers: Vec<TableReader>) -> (tables: Vec<XmlTable>)
    ensures
        show_all(tables@, filled_tables(reader_models(readers@), readers@.len())),
{
    let ghost models = reader_models(readers@);
    let ghost total = readers@.len();
    let mut reversed = turned_round(readers);
    let mut tables: Vec<XmlTable> = Vec::new();
    while reversed.len() > 0
        invariant
            reversed@.len() <= total == models.len(),
            forall|k: int|
                0 <= k < reversed@.len() ==> (#[trigger] reversed@[k]).state@ == models[total - 1
                    - k],
            show_all(tables@, filled_tables(models, (total - reversed@.len()) as nat)),
        decreases reversed@.len(),
    {
        let ghost done = total - reversed@.len();
        match reversed.pop() {
            Some(reader) => {
                assert(reader.state@ == models[done]);
                if reader.state.row_len() > 0 {
                    tables.push(reader.state.into_table());
                }
            },
            None => {},
        }
    }
    tables
}

/// The tables with rows that the given specifications make of a document.
pub fn parse_resolved_tables(events: &[XmlEvent], specs: Vec<ResolvedTableSpec>) -> (r: Result<
    Vec<XmlTable>,
    XmlError,
>)
    requires
        complete(event_models(events@)),
    ensures
        match r {
            Ok(tables) => resolved_tables(
                event_models(events@),
                resolved_views(specs@),
            ) matches Ok(models) && show_all(tables@, models),
            Err(e) => resolved_tables(event_models(events@), resolved_views(specs@)) == Err::<
                Seq<TableModel>,
                Seq<char>,
            >(e.message@),
        },
{
    let ghost models = event_models(events@);
    let ghost fresh = resolved_views(specs@).map_values(|s: ResolvedModel| fresh_table(s));
    let ghost whole = tables_from(models, 0, Seq::empty(), fresh);
    let ghost views = resolved_views(specs@);
    let mut readers = open_readers(specs);
    let mut stack: Vec<ElementFrame> = Vec::new();
    assert(frame_models(stack@) =~= Seq::empty());
    let mut i: usize = 0;
    while i < events.len()
        invariant
            i <= events@.len(),
            models == event_models(events@),
            complete(models),
            readers_wf(readers@, i as int),
            whole == tables_from(
                models,
                i as int,
                frame_models(stack@),
                reader_models(readers@),
            ),
            whole is Err ==> resolved_tables(models, views) == Err::<Seq<TableModel>, Seq<char>>(
                whole->Err_0,
            ),
            whole matches Ok(tables) ==> ({
                let ended = tables.map_values(|t: TableModel| table_ended(t));
                resolved_tables(models, views) == Ok::<Seq<TableModel>, Seq<char>>(
                    filled_tables(ended, ended.len()),
                )
            }),
            i > 0 ==> !ends_document(models[i - 1]),
            views == resolved_views(specs@),
        decreases events@.len() - i,
    {
        assert(models[i as int] == events@[i as int]@);
        let ghost outer = frame_models(stack@);
        match &events[i] {
            XmlEvent::Eof => {
                finish_all(&mut readers, Ghost(i as int));
                return Ok(collect_tables(readers));
            },
            XmlEvent::Failed(e) => {
                return Err(XmlError { message: e.clone() });
            },
            XmlEvent::Start(tag) => {
                mark_parent(&mut stack);
                match open_frame(tag) {
                    Ok(frame) => {
                        let ghost f = frame@;
                        let ghost parents = stack@;
                        stack.push(frame);
                        assert(frame_models(stack@) =~= frame_models(parents).push(f));
                    },
                    Err(e) => {
                        return Err(e);
                    },
                }
                let path = frame_path(&stack);
                begin_element_in_all(&mut readers, path.as_str(), Ghost(i as int));
            },
            XmlEvent::Empty(tag) => {
                mark_parent(&mut stack);
                let ghost parents = stack@;
                match open_frame(tag) {
                    Ok(frame) => {
                        let ghost f = frame@;
                        stack.push(frame);
                        assert(frame_models(stack@) =~= frame_models(parents).push(f));
                    },
                    Err(e) => {
                        return Err(e);
                    },
                }
                let path = frame_path(&stack);
                let ghost tables = reader_models(readers@);
                begin_element_in_all(&mut readers, path.as_str(), Ghost(i as int));
                match stack.pop() {
                    Some(frame) => {
                        end_element_in_all(&mut readers, path.as_str(), &frame, Ghost(i as int));
                        assert(stack@ =~= parents);
                        assert(reader_models(readers@) =~= tables.map_values(
                            |x: TableModel|
                                element_ended(element_begun(x, path@), path@, frame@),
                        ));
                    },
                    None => {},
                }
            },
            XmlEvent::Text(text) => {
                if stack_takes_text(&stack) {
                    match text {
                        Ok(s) => add_text(&mut stack, &chars_of(s.as_str())),
                        Err(e) => {
                            return Err(XmlError { message: e.clone() });
                        },
                    }
                }
            },
            XmlEvent::CData(bytes) => {
                if stack_takes_text(&stack) {
                    add_text(&mut stack, &chars_of(lossy_string(bytes).as_str()));
                }
            },
            XmlEvent::End(_) => {
                if stack.len() > 0 {
                    let path = frame_path(&stack);
                    match stack.pop() {
                        Some(frame) => {
                            end_element_in_all(
                                &mut readers,
                                path.as_str(),
                                &frame,
                                Ghost(i as int),
                            );
                            assert(frame_models(stack@) =~= outer.drop_last());
                        },
                        None => {},
                    }
                }
            },
            XmlEvent::Other => {},
        }
        i += 1;
    }
    assert(ends_document(models.last()));
    assert(false);
    Ok(Vec::new())
}

/// The tables that a mapping makes of a document.
pub fn tables_of_events(
    events: &[XmlEvent],
    document_type: &str,
    mapping: &XmlMappingDocument,
) -> (r: Result<XmlTables, XmlError>)
    requires
        complete(event_models(events@)),
    ensures
        match r {
            Ok(t) => t.document_type@ == document_type@ && (document_tables(
                event_models(events@),
                mapping_entries(*mapping),
            ) matches Ok(models) && show_all(t.tables@, models)),
            Err(e) => document_tables(event_models(events@), mapping_entries(*mapping)) == Err::<
                Seq<TableModel>,
                Seq<char>,
            >(e.message@),
        },
{
    let real_paths = match discover_real_paths(events) {
        Ok(paths) => paths,
        Err(e) => {
            return Err(e);
        },
    };
    let specs = normalize_table_specs(mapping);
    assert(crate::xml2tables::specs::normalized_views(specs@).len() == specs@.len());
    let resolved = resolve_table_specs(specs, &real_paths);
    match parse_resolved_tables(events, resolved) {
        Ok(tables) => Ok(XmlTables { document_type: document_type.to_owned(), tables }),
        Err(e) => Err(e),
    }
}

/// The tables that a mapping makes of a document.
pub fn parse_xml_tables_mapped(
    bytes: &[u8],
    document_type: &str,
    mapping: &XmlMappingDocument,
) -> (r: Result<XmlTables, XmlError>)
    ensures
        match r {
            Ok(t) => t.document_type@ == document_type@ && (document_tables(
                document_events(bytes@, false),
                mapping_entries(*mapping),
            ) matches Ok(models) && show_all(t.tables@, models)),
            Err(e) => document_tables(
                document_events(bytes@, false),
                mapping_entries(*mapping),
            ) == Err::<Seq<TableModel>, Seq<char>>(e.message@),
        },
{
    tables_of_events(&read_events(bytes, false), document_type, mapping)
}

} // verus!
