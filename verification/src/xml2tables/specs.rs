//! The tables of a mapping that a document has.
use indexmap::IndexMap;
use vstd::hash_set::StringHashSet;
use vstd::prelude::*;

use crate::collections::{
    new_text_map, set_text, text_entries, text_pairs, turned_round, with_entry, with_item,
};
use crate::ordered_map::pair_texts;
use crate::text::{copy_option, opt_text, texts};
use crate::xml::{
    attribute_result, event_models, AttributeModel, EventModel, XmlError, XmlEvent, XmlTag,
};
use crate::xml2tables::maps::{
    add_item, into_items, mapping_entries, mapping_pairs, named_specs, new_text_set, text_items,
};
use crate::xml2tables::paths::{
    attribute_path, attribute_text, chosen_context, current_path, first_existing,
    infer_row_boundary, join_attribute, listed_paths, normal_columns, normalize_attr_name,
    normalize_path_list, normalize_path_map, normalize_tag, path_of, select_context_path,
    select_first_existing_path, shared_boundary, tag_text,
};
use crate::xml2tables::types::{XmlMappingDocument, XmlTableSpec};

verus! {

// ---------------------------------------------------------------------------
// The paths of a document
// ---------------------------------------------------------------------------

/// The paths of the attributes from the `i`-th on, added to those that are known.
pub open spec fn attribute_paths_from(
    attributes: Seq<Result<AttributeModel, Seq<char>>>,
    i: int,
    path: Seq<char>,
    known: Set<Seq<char>>,
) -> Result<Set<Seq<char>>, Seq<char>>
    decreases attributes.len() - i,
{
    if i >= attributes.len() {
        Ok(known)
    } else {
        match attributes[i] {
            Err(e) => Err(e),
            Ok(a) => match a.value {
                Err(e) => Err(e),
                Ok(_) => attribute_paths_from(
                    attributes,
                    i + 1,
                    path,
                    known.insert(attribute_path(path, attribute_text(a.key))),
                ),
            },
        }
    }
}

/// The paths that the events from the `i`-th on add, inside the elements of `stack`.
pub open spec fn paths_from(
    events: Seq<EventModel>,
    i: int,
    stack: Seq<Seq<char>>,
    known: Set<Seq<char>>,
) -> Result<Set<Seq<char>>, Seq<char>>
    decreases events.len() - i,
{
    if i >= events.len() {
        Ok(known)
    } else {
        match events[i] {
            EventModel::Eof => Ok(known),
            EventModel::Failed(e) => Err(e),
            EventModel::Start(t) => {
                let inner = stack.push(tag_text(t.name));
                let path = path_of(inner);
                match attribute_paths_from(t.attributes, 0, path, known.insert(path)) {
                    Err(e) => Err(e),
                    Ok(paths) => paths_from(events, i + 1, inner, paths),
                }
            },
            EventModel::Empty(t) => {
                let path = path_of(stack.push(tag_text(t.name)));
                match attribute_paths_from(t.attributes, 0, path, known.insert(path)) {
                    Err(e) => Err(e),
                    Ok(paths) => paths_from(events, i + 1, stack, paths),
                }
            },
            EventModel::End(_) => if stack.len() > 0 {
                paths_from(events, i + 1, stack.drop_last(), known.insert(path_of(stack)))
            } else {
                paths_from(events, i + 1, stack, known)
            },
            _ => paths_from(events, i + 1, stack, known),
        }
    }
}

/// The paths of all elements and attributes of a document.
pub open spec fn document_paths(events: Seq<EventModel>) -> Result<Set<Seq<char>>, Seq<char>> {
    paths_from(events, 0, Seq::empty(), Set::empty())
}

fn add_current_path(tag: &XmlTag, stack: &[String], real_paths: &mut StringHashSet) -> (r: Result<
    (),
    XmlError,
>)
    ensures
        ({
            let path = path_of(texts(stack@));
            let paths = attribute_paths_from(
                tag@.attributes,
                0,
                path,
                old(real_paths)@.insert(path),
            );
            match r {
                Ok(()) => paths == Ok::<Set<Seq<char>>, Seq<char>>(final(real_paths)@),
                Err(e) => paths == Err::<Set<Seq<char>>, Seq<char>>(e.message@),
            }
        }),
{
    let path = current_path(stack);
    let ghost all = attribute_paths_from(
        tag@.attributes,
        0,
        path@,
        old(real_paths)@.insert(path@),
    );
    real_paths.insert(path.clone());
    let mut i: usize = 0;
    while i < tag.attributes.len()
        invariant
            i <= tag.attributes@.len(),
            tag@.attributes.len() == tag.attributes@.len(),
            path@ == path_of(texts(stack@)),
            all == attribute_paths_from(
                tag@.attributes,
                0,
                path@,
                old(real_paths)@.insert(path@),
            ),
            all == attribute_paths_from(tag@.attributes, i as int, path@, real_paths@),
        decreases tag.attributes@.len() - i,
    {
        assert(tag@.attributes[i as int] == attribute_result(tag.attributes@[i as int]));
        match &tag.attributes[i] {
            Err(e) => {
                return Err(XmlError { message: e.clone() });
            },
            Ok(a) => match &a.value {
                Err(e) => {
                    return Err(XmlError { message: e.clone() });
                },
                Ok(_) => {
                    let name = normalize_attr_name(&a.key);
                    real_paths.insert(join_attribute(path.as_str(), name.as_str()));
                },
            },
        }
        i += 1;
    }
    Ok(())
}

/// The paths of all elements and attributes that the given events state.
pub fn discover_real_paths(events: &[XmlEvent]) -> (r: Result<StringHashSet, XmlError>)
    ensures
        match r {
            Ok(paths) => document_paths(event_models(events@)) == Ok::<Set<Seq<char>>, Seq<char>>(
                paths@,
            ),
            Err(e) => document_paths(event_models(events@)) == Err::<Set<Seq<char>>, Seq<char>>(
                e.message@,
            ),
        },
{
    let ghost models = event_models(events@);
    let ghost whole = document_paths(models);
    let mut real_paths = StringHashSet::new();
    let mut stack: Vec<String> = Vec::new();
    assert(texts(stack@) =~= Seq::empty());
    let mut i: usize = 0;
    while i < events.len()
        invariant
            i <= events@.len(),
            models == event_models(events@),
            whole == document_paths(models),
            whole == paths_from(models, i as int, texts(stack@), real_paths@),
        decreases events@.len() - i,
    {
        assert(models[i as int] == events@[i as int]@);
        let ghost outer = stack@;
        match &events[i] {
            XmlEvent::Eof => {
                return Ok(real_paths);
            },
            XmlEvent::Failed(e) => {
                return Err(XmlError { message: e.clone() });
            },
            XmlEvent::Start(tag) => {
                stack.push(normalize_tag(&tag.name));
                assert(texts(stack@) =~= texts(outer).push(tag_text(tag@.name)));
                match add_current_path(tag, &stack, &mut real_paths) {
                    Ok(()) => {},
                    Err(e) => {
                        return Err(e);
                    },
                }
            },
            XmlEvent::Empty(tag) => {
                stack.push(normalize_tag(&tag.name));
                assert(texts(stack@) =~= texts(outer).push(tag_text(tag@.name)));
                match add_current_path(tag, &stack, &mut real_paths) {
                    Ok(()) => {},
                    Err(e) => {
                        return Err(e);
                    },
                }
                stack.pop();
                assert(stack@ =~= outer);
            },
            XmlEvent::End(_) => {
                if stack.len() > 0 {
                    real_paths.insert(current_path(&stack));
                    stack.pop();
                    assert(texts(stack@) =~= texts(outer).drop_last());
                }
            },
            _ => {},
        }
        i += 1;
    }
    Ok(real_paths)
}

// ---------------------------------------------------------------------------
// Normal form
// ---------------------------------------------------------------------------

/// A table of a mapping with its paths in normal form.
pub struct NormalizedTableSpec {
    pub name: String,
    pub columns: IndexMap<String, String>,
    pub carry: IndexMap<String, String>,
    pub row_paths: Vec<String>,
    pub context_paths: Vec<String>,
    pub row_index_col: Option<String>,
    pub context_index_col: Option<String>,
    pub explicit_row_path: bool,
}

pub struct NormalizedModel {
    pub name: Seq<char>,
    pub columns: Seq<(Seq<char>, Seq<char>)>,
    pub carry: Seq<(Seq<char>, Seq<char>)>,
    pub row_paths: Seq<Seq<char>>,
    pub context_paths: Seq<Seq<char>>,
    pub row_index_col: Option<Seq<char>>,
    pub context_index_col: Option<Seq<char>>,
    pub explicit_row_path: bool,
}

impl View for NormalizedTableSpec {
    type V = NormalizedModel;

    open spec fn view(&self) -> NormalizedModel {
        NormalizedModel {
            name: self.name@,
            columns: text_entries(self.columns),
            carry: text_entries(self.carry),
            row_paths: texts(self.row_paths@),
            context_paths: texts(self.context_paths@),
            row_index_col: opt_text(self.row_index_col),
            context_index_col: opt_text(self.context_index_col),
            explicit_row_path: self.explicit_row_path,
        }
    }
}

pub open spec fn normalized(name: Seq<char>, spec: XmlTableSpec) -> NormalizedModel {
    match spec {
        XmlTableSpec::Legacy(columns) => NormalizedModel {
            name,
            columns: normal_columns(text_entries(columns), text_entries(columns).len()),
            carry: Seq::empty(),
            row_paths: Seq::empty(),
            context_paths: Seq::empty(),
            row_index_col: None,
            context_index_col: None,
            explicit_row_path: false,
        },
        XmlTableSpec::Structured(s) => NormalizedModel {
            name,
            columns: normal_columns(text_entries(s.columns), text_entries(s.columns).len()),
            carry: normal_columns(text_entries(s.carry), text_entries(s.carry).len()),
            row_paths: listed_paths(s.row_path),
            context_paths: listed_paths(s.context_path),
            row_index_col: opt_text(s.row_index),
            context_index_col: opt_text(s.context_index),
            explicit_row_path: listed_paths(s.row_path).len() > 0,
        },
    }
}

pub open spec fn normalized_specs(specs: Seq<(Seq<char>, XmlTableSpec)>) -> Seq<NormalizedModel> {
    specs.map_values(|p: (Seq<char>, XmlTableSpec)| normalized(p.0, p.1))
}

pub open spec fn normalized_views(specs: Seq<NormalizedTableSpec>) -> Seq<NormalizedModel> {
    specs.map_values(|s: NormalizedTableSpec| s@)
}

fn normalize_table_spec(name: &String, spec: &XmlTableSpec) -> (out: NormalizedTableSpec)
    ensures
        out@ == normalized(name@, *spec),
{
    match spec {
        XmlTableSpec::Legacy(columns) => {
            let out = NormalizedTableSpec {
                name: name.clone(),
                columns: normalize_path_map(columns),
                carry: new_text_map(),
                row_paths: Vec::new(),
                context_paths: Vec::new(),
                row_index_col: None,
                context_index_col: None,
                explicit_row_path: false,
            };
            assert(texts(out.row_paths@) =~= Seq::empty());
            assert(texts(out.context_paths@) =~= Seq::empty());
            out
        },
        XmlTableSpec::Structured(spec) => {
            let row_paths = normalize_path_list(&spec.row_path);
            assert(row_paths@.len() == texts(row_paths@).len());
            NormalizedTableSpec {
                name: name.clone(),
                columns: normalize_path_map(&spec.columns),
                carry: normalize_path_map(&spec.carry),
                context_paths: normalize_path_list(&spec.context_path),
                explicit_row_path: row_paths.len() > 0,
                row_paths,
                row_index_col: copy_option(&spec.row_index),
                context_index_col: copy_option(&spec.context_index),
            }
        },
    }
}

/// The tables of a mapping in normal form.
pub fn normalize_table_specs(mapping: &XmlMappingDocument) -> (specs: Vec<NormalizedTableSpec>)
    ensures
        normalized_views(specs@) == normalized_specs(mapping_entries(*mapping)),
{
    let pairs = mapping_pairs(mapping);
    let mut specs: Vec<NormalizedTableSpec> = Vec::new();
    let mut i: usize = 0;
    while i < pairs.len()
        invariant
            i <= pairs@.len(),
            named_specs(pairs@) == mapping_entries(*mapping),
            normalized_views(specs@) == normalized_specs(
                mapping_entries(*mapping).take(i as int),
            ),
        decreases pairs@.len() - i,
    {
        let ghost earlier = specs@;
        assert(mapping_entries(*mapping)[i as int] == (pairs@[i as int].0@, *pairs@[i as int].1));
        specs.push(normalize_table_spec(pairs[i].0, pairs[i].1));
        assert(normalized_views(specs@) =~= normalized_views(earlier).push(specs@.last()@));
        assert(normalized_specs(mapping_entries(*mapping).take(i + 1)) =~= normalized_specs(
            mapping_entries(*mapping).take(i as int),
        ).push(specs@.last()@));
        i += 1;
    }
    assert(mapping_entries(*mapping).take(i as int) =~= mapping_entries(*mapping));
    specs
}

// ---------------------------------------------------------------------------
// Resolving
// ---------------------------------------------------------------------------

/// A table with the columns that a document has.
pub struct ResolvedTableSpec {
    pub name: String,
    pub columns: IndexMap<String, String>,
    pub carry: IndexMap<String, String>,
    pub row_boundary: String,
    pub context_path: Option<String>,
    pub row_index_col: Option<String>,
    pub context_index_col: Option<String>,
    pub explicit_row_path: bool,
    pub output_columns: Vec<String>,
}

pub struct ResolvedModel {
    pub name: Seq<char>,
    pub columns: Seq<(Seq<char>, Seq<char>)>,
    pub carry: Seq<(Seq<char>, Seq<char>)>,
    pub row_boundary: Seq<char>,
    pub context_path: Option<Seq<char>>,
    pub row_index_col: Option<Seq<char>>,
    pub context_index_col: Option<Seq<char>>,
    pub explicit_row_path: bool,
    pub output_columns: Seq<Seq<char>>,
}

impl View for ResolvedTableSpec {
    type V = ResolvedModel;

    open spec fn view(&self) -> ResolvedModel {
        ResolvedModel {
            name: self.name@,
            columns: text_entries(self.columns),
            carry: text_entries(self.carry),
            row_boundary: self.row_boundary@,
            context_path: opt_text(self.context_path),
            row_index_col: opt_text(self.row_index_col),
            context_index_col: opt_text(self.context_index_col),
            explicit_row_path: self.explicit_row_path,
            output_columns: texts(self.output_columns@),
        }
    }
}

/// The columns of the first `n` entries whose paths a document has.
pub open spec fn present_columns(
    s: Seq<(Seq<char>, Seq<char>)>,
    paths: Set<Seq<char>>,
    n: nat,
) -> Seq<(Seq<char>, Seq<char>)>
    decreases n,
{
    if n == 0 || n > s.len() {
        Seq::empty()
    } else {
        let earlier = present_columns(s, paths, (n - 1) as nat);
        if paths.contains(s[n - 1].0) {
            with_entry(earlier, s[n - 1].0, s[n - 1].1)
        } else {
            earlier
        }
    }
}

/// The columns of the first `n` entries, each once.
pub open spec fn with_columns(
    columns: Seq<Seq<char>>,
    s: Seq<(Seq<char>, Seq<char>)>,
    n: nat,
) -> Seq<Seq<char>>
    decreases n,
{
    if n == 0 || n > s.len() {
        columns
    } else {
        with_item(with_columns(columns, s, (n - 1) as nat), s[n - 1].1)
    }
}

pub open spec fn with_optional(columns: Seq<Seq<char>>, column: Option<Seq<char>>) -> Seq<
    Seq<char>,
> {
    match column {
        Some(c) => with_item(columns, c),
        None => columns,
    }
}

/// The columns of a table: its own, those it carries, its counters, its name.
pub open spec fn table_columns(
    columns: Seq<(Seq<char>, Seq<char>)>,
    carry: Seq<(Seq<char>, Seq<char>)>,
    row_index_col: Option<Seq<char>>,
    context_index_col: Option<Seq<char>>,
) -> Seq<Seq<char>> {
    let own = with_columns(Seq::empty(), columns, columns.len());
    let carried = with_columns(own, carry, carry.len());
    let counted = with_optional(with_optional(carried, row_index_col), context_index_col);
    with_item(counted, "_table"@)
}

/// A table as a document has it: nothing where the document has none of its columns, or none of
/// the places at which its rows are said to end.
pub open spec fn resolved(spec: NormalizedModel, paths: Set<Seq<char>>) -> Option<ResolvedModel> {
    let columns = present_columns(spec.columns, paths, spec.columns.len());
    let carry = present_columns(spec.carry, paths, spec.carry.len());
    let boundary = if spec.explicit_row_path {
        first_existing(spec.row_paths, paths, 0)
    } else {
        Some(shared_boundary(columns))
    };
    if columns.len() == 0 || boundary is None {
        None
    } else {
        Some(
            ResolvedModel {
                name: spec.name,
                columns,
                carry,
                row_boundary: boundary->0,
                context_path: chosen_context(spec.context_paths, boundary->0, paths),
                row_index_col: spec.row_index_col,
                context_index_col: spec.context_index_col,
                explicit_row_path: spec.explicit_row_path,
                output_columns: table_columns(
                    columns,
                    carry,
                    spec.row_index_col,
                    spec.context_index_col,
                ),
            },
        )
    }
}

/// The tables that a document has, among the first `n`.
pub open spec fn resolved_specs(
    specs: Seq<NormalizedModel>,
    paths: Set<Seq<char>>,
    n: nat,
) -> Seq<ResolvedModel>
    decreases n,
{
    if n == 0 || n > specs.len() {
        Seq::empty()
    } else {
        let earlier = resolved_specs(specs, paths, (n - 1) as nat);
        match resolved(specs[n - 1], paths) {
            Some(r) => earlier.push(r),
            None => earlier,
        }
    }
}

pub open spec fn resolved_views(specs: Seq<ResolvedTableSpec>) -> Seq<ResolvedModel> {
    specs.map_values(|s: ResolvedTableSpec| s@)
}

fn keep_present(columns: &IndexMap<String, String>, real_paths: &StringHashSet) -> (out: IndexMap<
    String,
    String,
>)
    ensures
        text_entries(out) == present_columns(
            text_entries(*columns),
            real_paths@,
            text_entries(*columns).len(),
        ),
{
    let pairs = text_pairs(columns);
    let ghost all = text_entries(*columns);
    let mut out = new_text_map();
    let mut i: usize = 0;
    while i < pairs.len()
        invariant
            i <= pairs@.len(),
            pair_texts(pairs@) == all,
            text_entries(out) == present_columns(all, real_paths@, i as nat),
        decreases pairs@.len() - i,
    {
        assert(all[i as int] == (pairs@[i as int].0@, pairs@[i as int].1@));
        if real_paths.contains(pairs[i].0.as_str()) {
            set_text(&mut out, pairs[i].0.clone(), pairs[i].1.clone());
        }
        i += 1;
    }
    assert(pairs@.len() == all.len());
    out
}

fn output_columns_of(
    columns: &Vec<(String, String)>,
    carry: &Vec<(String, String)>,
    row_index_col: &Option<String>,
    context_index_col: &Option<String>,
) -> (out: Vec<String>)
    ensures
        texts(out@) == table_columns(
            pair_texts(columns@),
            pair_texts(carry@),
            opt_text(*row_index_col),
            opt_text(*context_index_col),
        ),
{
    let ghost cols = pair_texts(columns@);
    let ghost carried = pair_texts(carry@);
    let mut set = new_text_set();
    let mut i: usize = 0;
    while i < columns.len()
        invariant
            i <= columns@.len(),
            cols == pair_texts(columns@),
            text_items(set) == with_columns(Seq::empty(), cols, i as nat),
        decreases columns@.len() - i,
    {
        assert(cols[i as int].1 == columns@[i as int].1@);
        add_item(&mut set, columns[i].1.clone());
        i += 1;
    }
    let ghost own = text_items(set);
    assert(cols.len() == columns@.len());
    let mut j: usize = 0;
    while j < carry.len()
        invariant
            j <= carry@.len(),
            carried == pair_texts(carry@),
            text_items(set) == with_columns(own, carried, j as nat),
        decreases carry@.len() - j,
    {
        assert(carried[j as int].1 == carry@[j as int].1@);
        add_item(&mut set, carry[j].1.clone());
        j += 1;
    }
    assert(carried.len() == carry@.len());
    match row_index_col {
        Some(c) => add_item(&mut set, c.clone()),
        None => {},
    }
    match context_index_col {
        Some(c) => add_item(&mut set, c.clone()),
        None => {},
    }
    add_item(&mut set, "_table".to_owned());
    into_items(set)
}

fn resolve_table_spec(spec: NormalizedTableSpec, real_paths: &StringHashSet) -> (out: Option<
    ResolvedTableSpec,
>)
    ensures
        match out {
            Some(r) => resolved(spec@, real_paths@) == Some(r@),
            None => resolved(spec@, real_paths@) is None,
        },
{
    let columns = keep_present(&spec.columns, real_paths);
    let pairs = text_pairs(&columns);
    assert(pairs@.len() == text_entries(columns).len());
    if pairs.len() == 0 {
        return None;
    }
    let carry = keep_present(&spec.carry, real_paths);
    let carry_pairs = text_pairs(&carry);
    let row_boundary = if spec.explicit_row_path {
        match select_first_existing_path(&spec.row_paths, real_paths) {
            Some(path) => path,
            None => {
                return None;
            },
        }
    } else {
        infer_row_boundary(&pairs)
    };
    let context_path = select_context_path(&spec.context_paths, row_boundary.as_str(), real_paths);
    let output_columns = output_columns_of(
        &pairs,
        &carry_pairs,
        &spec.row_index_col,
        &spec.context_index_col,
    );
    Some(
        ResolvedTableSpec {
            name: spec.name,
            columns,
            carry,
            row_boundary,
            context_path,
            row_index_col: spec.row_index_col,
            context_index_col: spec.context_index_col,
            explicit_row_path: spec.explicit_row_path,
            output_columns,
        },
    )
}

/// The tables that a document with the given paths has.
pub fn resolve_table_specs(specs: Vec<NormalizedTableSpec>, real_paths: &StringHashSet) -> (out:
    Vec<ResolvedTableSpec>)
    ensures
        resolved_views(out@) == resolved_specs(
            normalized_views(specs@),
            real_paths@,
            specs@.len(),
        ),
{
    let ghost models = normalized_views(specs@);
    let ghost total = specs@.len();
    let mut reversed = turned_round(specs);
    let mut out: Vec<ResolvedTableSpec> = Vec::new();
    assert(resolved_views(out@) =~= resolved_specs(models, real_paths@, 0));
    while reversed.len() > 0
        invariant
            reversed@.len() <= total == models.len(),
            forall|k: int|
                0 <= k < reversed@.len() ==> (#[trigger] reversed@[k])@ == models[total - 1 - k],
            resolved_views(out@) == resolved_specs(
                models,
                real_paths@,
                (total - reversed@.len()) as nat,
            ),
        decreases reversed@.len(),
    {
        let ghost earlier = out@;
        let ghost done = total - reversed@.len();
        match reversed.pop() {
            Some(spec) => {
                assert(spec@ == models[done]);
                match resolve_table_spec(spec, real_paths) {
                    Some(r) => {
                        let ghost made = r@;
                        out.push(r);
                        assert(resolved_views(out@) =~= resolved_views(earlier).push(made));
                    },
                    None => {},
                }
            },
            None => {},
        }
    }
    out
}

} // verus!
